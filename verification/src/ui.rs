//! Display-side value types and text helpers: the circle and activity
//! records handed to the rendering layer, drawing errors, and title
//! truncation for the activity list.

use vstd::prelude::*;
use vstd::string::{StrSliceExecFns, StringExecFns};

verus! {

/// A filled circle, positioned by its center.
pub struct Circle {
    pub x: i32,
    pub y: i32,
    pub diameter: u32,
}

impl Circle {
    pub fn new(x: i32, y: i32, diameter: u32) -> (r: Circle)
        ensures
            r.x == x,
            r.y == y,
            r.diameter == diameter,
    {
        Circle { x, y, diameter }
    }

    pub fn x(self, x: i32) -> (r: Circle)
        ensures
            r.x == x,
            r.y == self.y,
            r.diameter == self.diameter,
    {
        Circle { x, ..self }
    }

    pub fn y(self, y: i32) -> (r: Circle)
        ensures
            r.x == self.x,
            r.y == y,
            r.diameter == self.diameter,
    {
        Circle { y, ..self }
    }

    pub fn diameter(self, diameter: u32) -> (r: Circle)
        ensures
            r.x == self.x,
            r.y == self.y,
            r.diameter == diameter,
    {
        Circle { diameter, ..self }
    }
}

/// One row of the activity list: an event name and how many days remain
/// until it.
pub struct Activity {
    pub name: String,
    pub days_remaining: i32,
}

impl Activity {
    pub fn new(name: &str, days_remaining: i32) -> (r: Activity)
        ensures
            r.name@ == name@,
            r.days_remaining == days_remaining,
    {
        Activity { name: String::from_str(name), days_remaining }
    }
}

/// A failure reported while drawing to a display.
pub enum DrawError {
    DrawFailed(String),
}

impl DrawError {
    /// The failure text carried by this error.
    pub fn message(&self) -> (r: &String)
        ensures
            self matches DrawError::DrawFailed(m) && r@ == m@,
    {
        match self {
            DrawError::DrawFailed(m) => m,
        }
    }
}

/// Truncation by character count: a string of at most `max_len` characters
/// passes through unchanged; a longer one is cut to `max_len` characters
/// with an ellipsis appended.
pub fn truncate_string(s: &str, max_len: usize) -> (r: String)
    ensures
        s@.len() <= max_len ==> r@ == s@,
        s@.len() > max_len ==> r@ == s@.subrange(0, max_len as int) + "..."@,
{
    let n = s.unicode_len();
    if n <= max_len {
        return s.to_owned();
    }
    let head = s.substring_char(0, max_len);
    String::from_str(head).concat("...")
}

/// The display-column width of one character. Stated only through the
/// trusted lookup below; the width tables are fixed at build time, so this
/// depends on the character alone.
pub uninterp spec fn char_width(c: char) -> nat;

/// Relies on unicode-width's `UnicodeWidthChar::width`: the display-column
/// width of one character (its tables yield at most 3 columns), with a
/// control character taken as width 0.
#[verifier::external_body]
fn display_width(c: char) -> (w: usize)
    ensures
        w == char_width(c),
        w <= 3,
{
    unicode_width::UnicodeWidthChar::width(c).unwrap_or(0)
}

/// Truncation by display columns: characters are kept while their cumulative
/// display width fits the budget; at the first character that would exceed
/// it, an ellipsis is appended and the rest is discarded.
pub open spec fn spec_truncate_unicode(s: Seq<char>, budget: int) -> Seq<char>
    decreases s.len(),
{
    if s.len() == 0 {
        Seq::empty()
    } else if char_width(s[0]) > budget {
        "..."@
    } else {
        seq![s[0]] + spec_truncate_unicode(s.drop_first(), budget - char_width(s[0]))
    }
}

/// Relies on String::push: appends one character.
#[verifier::external_body]
fn push_char(s: &mut String, c: char)
    ensures
        final(s)@ == old(s)@.push(c),
{
    s.push(c)
}

pub fn truncate_string_unicode(s: &str, max_len: usize) -> (r: String)
    ensures
        r@ == spec_truncate_unicode(s@, max_len as int),
{
    let n = s.unicode_len();
    let mut result = String::new();
    let mut current: usize = 0;
    let mut i: usize = 0;
    proof {
        assert(s@.subrange(0, n as int) =~= s@);
        assert(Seq::<char>::empty() + spec_truncate_unicode(s@, max_len as int)
            =~= spec_truncate_unicode(s@, max_len as int));
    }
    while i < n
        invariant
            0 <= i <= n,
            n == s@.len(),
            current <= max_len,
            spec_truncate_unicode(s@, max_len as int) == result@ + spec_truncate_unicode(
                s@.subrange(i as int, n as int),
                max_len - current,
            ),
        decreases n - i,
    {
        let c = s.get_char(i);
        let w = display_width(c);
        let ghost rest = s@.subrange(i as int, n as int);
        proof {
            assert(rest[0] == s@[i as int]);
        }
        if w > max_len - current {
            result.append("...");
            proof {
                assert(result@ == spec_truncate_unicode(s@, max_len as int));
            }
            return result;
        }
        let ghost res0 = result@;
        let ghost tail = spec_truncate_unicode(s@.subrange(i + 1, n as int), max_len - current - w);
        proof {
            assert(rest.drop_first() =~= s@.subrange(i + 1, n as int));
            assert(spec_truncate_unicode(rest, max_len - current) == seq![c] + tail);
        }
        push_char(&mut result, c);
        current = current + w;
        i = i + 1;
        proof {
            assert(res0 + (seq![c] + tail) =~= result@ + tail);
        }
    }
    proof {
        assert(s@.subrange(i as int, n as int) =~= Seq::<char>::empty());
        assert(result@ + Seq::<char>::empty() =~= result@);
    }
    result
}

} // verus!
