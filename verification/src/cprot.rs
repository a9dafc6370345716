//! The control protocol: what an operator can ask of the proxy, and what
//! the proxy answers. One request gets one response.

use crate::addr::SocketAddress;
use vstd::prelude::*;

verus! {

/// A request of an operator.
#[derive(Debug, PartialEq, Eq)]
pub enum Request {
    Echo,
    SetMapping(String, SocketAddress),
    GetMapping(String),
    RmMapping(String, bool),
    LsMappings,
    MkListener(SocketAddress),
    RmListener(SocketAddress),
    LsListeners,
    LsConns,
}

/// The answer to a request.
#[derive(Debug, PartialEq, Eq)]
pub enum Response {
    Error(ErrKind, String),
    Echo,
    /// The request was carried out. On the wire this answer is named `Ok`.
    Okay(String),
    List(Vec<String>),
    Nil,
}

/// Why a request failed.
#[derive(Debug, PartialEq, Eq)]
pub enum ErrKind {
    InvalidPacket,
    IoError(String),
    NotFound,
}

/// A request, in the abstract.
pub enum RequestView {
    Echo,
    SetMapping(Seq<char>, Seq<char>),
    GetMapping(Seq<char>),
    RmMapping(Seq<char>, bool),
    LsMappings,
    MkListener(Seq<char>),
    RmListener(Seq<char>),
    LsListeners,
    LsConns,
}

/// A response, in the abstract.
pub enum ResponseView {
    Error(ErrKindView, Seq<char>),
    Echo,
    Okay(Seq<char>),
    List(Seq<Seq<char>>),
    Nil,
}

/// The kind of an error, in the abstract.
pub enum ErrKindView {
    InvalidPacket,
    IoError(Seq<char>),
    NotFound,
}

impl View for Request {
    type V = RequestView;

    open spec fn view(&self) -> RequestView {
        match self {
            Request::Echo => RequestView::Echo,
            Request::SetMapping(domain, addr) => RequestView::SetMapping(domain@, addr@),
            Request::GetMapping(domain) => RequestView::GetMapping(domain@),
            Request::RmMapping(domain, disconnect) => RequestView::RmMapping(domain@, *disconnect),
            Request::LsMappings => RequestView::LsMappings,
            Request::MkListener(addr) => RequestView::MkListener(addr@),
            Request::RmListener(addr) => RequestView::RmListener(addr@),
            Request::LsListeners => RequestView::LsListeners,
            Request::LsConns => RequestView::LsConns,
        }
    }
}

impl View for ErrKind {
    type V = ErrKindView;

    open spec fn view(&self) -> ErrKindView {
        match self {
            ErrKind::InvalidPacket => ErrKindView::InvalidPacket,
            ErrKind::IoError(text) => ErrKindView::IoError(text@),
            ErrKind::NotFound => ErrKindView::NotFound,
        }
    }
}

impl View for Response {
    type V = ResponseView;

    open spec fn view(&self) -> ResponseView {
        match self {
            Response::Error(kind, text) => ResponseView::Error(kind@, text@),
            Response::Echo => ResponseView::Echo,
            Response::Okay(text) => ResponseView::Okay(text@),
            Response::List(lines) => ResponseView::List(lines.deep_view()),
            Response::Nil => ResponseView::Nil,
        }
    }
}

} // verus!
