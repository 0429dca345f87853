//! The requests of a client, the answers to them, and the limits that a
//! key and a value must keep.

use crate::storage::append_only_log::{is_token, valid_token};
use vstd::prelude::*;

verus! {

/// The most bytes a key may have.
pub const MAX_KEY_BYTES: usize = 4096;

/// The most bytes a value may have.
pub const MAX_VALUE_BYTES: usize = 1048576;

/// A request of a client.
#[derive(Debug)]
pub enum Message {
    Get(String),
    Put(String, String),
    Delete(String),
}

/// An answer to a client.
#[derive(Debug)]
pub enum Response {
    /// What a read found.
    Value(Option<String>),
    /// A write was carried out; for a delete, whether the key was there.
    Success(bool),
    /// The request was not carried out, and why.
    Error(String),
    /// The request belongs to the leader, whose address this is.
    Redirect(String),
}

/// A request as mathematical values.
pub enum MessageView {
    Get(Seq<char>),
    Put(Seq<char>, Seq<char>),
    Delete(Seq<char>),
}

/// An answer as mathematical values.
pub enum ResponseView {
    Value(Option<Seq<char>>),
    Success(bool),
    Error(Seq<char>),
    Redirect(Seq<char>),
}

impl View for Message {
    type V = MessageView;

    open spec fn view(&self) -> MessageView {
        match self {
            Message::Get(key) => MessageView::Get(key@),
            Message::Put(key, value) => MessageView::Put(key@, value@),
            Message::Delete(key) => MessageView::Delete(key@),
        }
    }
}

impl View for Response {
    type V = ResponseView;

    open spec fn view(&self) -> ResponseView {
        match self {
            Response::Value(Some(value)) => ResponseView::Value(Some(value@)),
            Response::Value(None) => ResponseView::Value(None),
            Response::Success(done) => ResponseView::Success(*done),
            Response::Error(reason) => ResponseView::Error(reason@),
            Response::Redirect(address) => ResponseView::Redirect(address@),
        }
    }
}

/// The number of bytes that a text takes.
pub open spec fn byte_len(s: Seq<char>) -> nat {
    vstd::utf8::encode_utf8(s).len()
}

/// A key that the store accepts: not empty, free of whitespace, and of
/// at most `MAX_KEY_BYTES` bytes.
pub open spec fn is_key(s: Seq<char>) -> bool {
    is_token(s) && byte_len(s) <= MAX_KEY_BYTES
}

/// A value that the store accepts: not empty, free of whitespace, and of
/// at most `MAX_VALUE_BYTES` bytes.
pub open spec fn is_value(s: Seq<char>) -> bool {
    is_token(s) && byte_len(s) <= MAX_VALUE_BYTES
}

impl MessageView {
    /// The key and the value of the request are such as the store accepts.
    pub open spec fn valid(self) -> bool {
        match self {
            MessageView::Get(key) => is_key(key),
            MessageView::Put(key, value) => is_key(key) && is_value(value),
            MessageView::Delete(key) => is_key(key),
        }
    }
}

pub fn valid_key(key: &str) -> (yes: bool)
    ensures
        yes == is_key(key@),
{
    key.as_bytes().len() <= MAX_KEY_BYTES && valid_token(key)
}

pub fn valid_value(value: &str) -> (yes: bool)
    ensures
        yes == is_value(value@),
{
    value.as_bytes().len() <= MAX_VALUE_BYTES && valid_token(value)
}

impl Message {
    /// Whether the request keeps the limits on keys and values.
    pub fn is_valid(&self) -> (yes: bool)
        ensures
            yes == self@.valid(),
    {
        match self {
            Message::Get(key) => valid_key(key.as_str()),
            Message::Put(key, value) => valid_key(key.as_str()) && valid_value(value.as_str()),
            Message::Delete(key) => valid_key(key.as_str()),
        }
    }
}

} // verus!
