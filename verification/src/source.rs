//! Where the wrappers read their contents from.
use vstd::prelude::*;
use vstd::string::StringSliceAdditionalSpecFns;
use vstd::utf8::encode_utf8;

verus! {

/// A value that can be read as a run of bytes.
pub trait ByteSource {
    /// The bytes that the value holds.
    spec fn byte_view(&self) -> Seq<u8>;

    /// Borrows the bytes.
    fn as_byte_slice(&self) -> (r: &[u8])
        ensures
            r@ == self.byte_view(),
    ;
}

/// A value that can be read as text.
pub trait TextSource {
    /// The characters that the value holds.
    spec fn text_view(&self) -> Seq<char>;

    /// Borrows the text.
    fn as_text(&self) -> (r: &str)
        ensures
            r@ == self.text_view(),
    ;
}

impl<'a> ByteSource for &'a str {
    open spec fn byte_view(&self) -> Seq<u8> {
        encode_utf8((*self)@)
    }

    fn as_byte_slice(&self) -> (r: &[u8]) {
        (*self).as_bytes()
    }
}

impl ByteSource for String {
    open spec fn byte_view(&self) -> Seq<u8> {
        encode_utf8(self@)
    }

    fn as_byte_slice(&self) -> (r: &[u8]) {
        self.as_str().as_bytes()
    }
}

impl<'a> ByteSource for &'a [u8] {
    open spec fn byte_view(&self) -> Seq<u8> {
        (*self)@
    }

    fn as_byte_slice(&self) -> (r: &[u8]) {
        *self
    }
}

impl ByteSource for Vec<u8> {
    open spec fn byte_view(&self) -> Seq<u8> {
        self@
    }

    fn as_byte_slice(&self) -> (r: &[u8]) {
        self.as_slice()
    }
}

impl<'a> TextSource for &'a str {
    open spec fn text_view(&self) -> Seq<char> {
        (*self)@
    }

    fn as_text(&self) -> (r: &str) {
        *self
    }
}

impl TextSource for String {
    open spec fn text_view(&self) -> Seq<char> {
        self@
    }

    fn as_text(&self) -> (r: &str) {
        self.as_str()
    }
}

} // verus!
