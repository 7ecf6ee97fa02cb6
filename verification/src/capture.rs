//! Where preview frames come from, and which one a viewer gets.
use vstd::prelude::*;
use crate::text::{
    chars_of, is_blank, lemma_trimmed_fixed, slice_of, text_of, trim, trimmed,
};

verus! {

/// Where preview frames come from.
#[derive(Debug, PartialEq, Eq)]
pub enum Source {
    /// Re-read this image file on every grab.
    File(String),
    /// Open the camera with this index.
    Device(u32),
}

/// A text in quotes of one sort.
pub open spec fn is_quoted(s: Seq<char>) -> bool {
    s.len() >= 2 && s[0] == s.last() && (s[0] == '"' || s[0] == '\'')
}

/// A pasted path without the quotes and white space around it.
pub open spec fn cleaned(s: Seq<char>) -> Seq<char> {
    let t = trimmed(s);
    if is_quoted(t) {
        trimmed(t.subrange(1, t.len() - 1))
    } else {
        trimmed(t)
    }
}

/// Strip surrounding quotes and white space from a pasted file path.
pub fn clean_path(s: &str) -> (r: String)
    ensures
        r@ == cleaned(s@),
{
    let t = trim(&chars_of(s));
    let n: usize = t.len();
    let inner = if n >= 2 && t[0] == t[n - 1] && (t[0] == '"' || t[0] == '\'') {
        slice_of(&t, 1, n - 1)
    } else {
        t
    };
    text_of(&trim(&inner))
}

/// The cameras that can be opened by index. There are none: device support is
/// not built in.
pub fn list_devices() -> (devices: Vec<(u32, String)>)
    ensures
        devices@.len() == 0,
{
    list_devices_impl()
}

/// No camera backend is built in.
pub fn list_devices_impl() -> (devices: Vec<(u32, String)>)
    ensures
        devices@.len() == 0,
{
    Vec::new()
}

/// How to get a frame from a source.
#[derive(Debug, PartialEq, Eq)]
pub enum GrabPlan {
    /// Read this image file.
    Open(String),
    /// Nothing can be grabbed, for this reason.
    Refuse(String),
}

/// Decide how to get a frame: a file by its cleaned path, if there is one; a
/// camera never.
pub fn grab_plan(source: &Source) -> (plan: GrabPlan)
    ensures
        match *source {
            Source::File(path) => if cleaned(path@).len() == 0 {
                plan matches GrabPlan::Refuse(why) && why@ == "set a frame file path"@
            } else {
                plan matches GrabPlan::Open(p) && p@ == cleaned(path@)
            },
            Source::Device(_) => plan matches GrabPlan::Refuse(why) && why@
                == "camera device support not built \u{2014} rebuild with the `camera` feature, or use a File source (any capture app that writes a frame to disk)"@,
        },
{
    match source {
        Source::File(path) => {
            let p = clean_path(path.as_str());
            let n: usize = chars_of(p.as_str()).len();
            if n == 0 {
                GrabPlan::Refuse(String::from_str("set a frame file path"))
            } else {
                GrabPlan::Open(p)
            }
        },
        Source::Device(_) => GrabPlan::Refuse(
            String::from_str(
                "camera device support not built \u{2014} rebuild with the `camera` feature, or use a File source (any capture app that writes a frame to disk)",
            ),
        ),
    }
}

/// How long to wait before the next grab, in milliseconds: longer after a
/// failure.
pub fn pause_ms(failed: bool) -> (ms: u64)
    ensures
        ms == if failed {
            300
        } else {
            40int
        },
{
    if failed {
        300
    } else {
        40
    }
}

/// The gray level of a color: the usual weights, rounded to nearest.
pub fn luma(r: u8, g: u8, b: u8) -> (l: u8)
    ensures
        l == (299 * r + 587 * g + 114 * b + 500) / 1_000,
{
    ((299 * r as u32 + 587 * g as u32 + 114 * b as u32 + 500) / 1_000) as u8
}

/// A slot one frame deep: a producer overwrites it, a viewer takes from it.
#[derive(Debug, PartialEq, Eq)]
pub struct Latest<T> {
    frame: Option<T>,
}

impl<T> Latest<T> {
    /// The frame that a viewer would get.
    pub closed spec fn held(self) -> Option<T> {
        self.frame
    }

    /// An empty slot.
    pub fn empty() -> (s: Self)
        ensures
            s.held() is None,
    {
        Latest { frame: None }
    }

    /// Put in the freshest frame; one that was not taken is dropped.
    pub fn offer(&mut self, frame: T)
        ensures
            final(self).held() == Some(frame),
    {
        self.frame = Some(frame);
    }

    /// Take the frame, if a new one has arrived.
    pub fn take(&mut self) -> (r: Option<T>)
        ensures
            r == old(self).held(),
            final(self).held() is None,
    {
        self.frame.take()
    }
}

/// Quotes come off a pasted path with the white space outside and inside them; a
/// path without quotes stays as it is.
pub proof fn quotes_come_off(p: Seq<char>, q: char)
    requires
        q == '"' || q == '\'',
        p.len() > 0,
        !is_blank(p[0]) && p[0] != '"' && p[0] != '\'',
        !is_blank(p.last()),
    ensures
        cleaned(p) == p,
        cleaned(seq![q] + p + seq![q]) == p,
{
    lemma_trimmed_fixed(p);
    let t = seq![q] + p + seq![q];
    lemma_trimmed_fixed(t);
    assert(t.subrange(1, t.len() - 1) =~= p);
}

} // verus!
