//! One input line, taken out of the read buffer and trimmed.
use vstd::prelude::*;

verus! {

/// Space, tab, carriage return or newline: what trimming removes at either
/// end of a line.
pub open spec fn is_line_ws(b: u8) -> bool {
    b == 32 || b == 9 || b == 10 || b == 13
}

pub open spec fn drop_leading(s: Seq<u8>) -> Seq<u8>
    decreases s.len(),
{
    if s.len() > 0 && is_line_ws(s[0]) {
        drop_leading(s.skip(1))
    } else {
        s
    }
}

pub open spec fn drop_trailing(s: Seq<u8>) -> Seq<u8>
    decreases s.len(),
{
    if s.len() > 0 && is_line_ws(s.last()) {
        drop_trailing(s.drop_last())
    } else {
        s
    }
}

/// The line with leading and trailing whitespace removed.
pub open spec fn spec_trim(s: Seq<u8>) -> Seq<u8> {
    drop_trailing(drop_leading(s))
}

/// One trimmed input line, owned apart from the read buffer it was drained
/// from.
#[derive(Debug)]
pub struct Line {
    bytes: Vec<u8>,
}

impl View for Line {
    type V = Seq<u8>;

    closed spec fn view(&self) -> Seq<u8> {
        self.bytes@
    }
}

impl Line {
    /// Empties the read buffer and keeps its content, trimmed of leading
    /// and trailing whitespace.
    pub fn drain(buf: &mut Vec<u8>) -> (r: Line)
        ensures
            final(buf)@.len() == 0,
            r@ == spec_trim(old(buf)@),
    {
        let s = buf;
        let n = s.len();
        let mut a: usize = 0;
        proof {
            assert(s@.skip(0) =~= s@);
        }
        while a < n && (s[a] == 32 || s[a] == 9 || s[a] == 10 || s[a] == 13)
            invariant
                a <= n,
                n == s@.len(),
                drop_leading(s@) == drop_leading(s@.skip(a as int)),
            decreases n - a,
        {
            proof {
                assert(s@.skip(a as int)[0] == s@[a as int]);
                assert(s@.skip(a as int).skip(1) =~= s@.skip(a + 1 as int));
            }
            a = a + 1;
        }
        let ghost t = s@.skip(a as int);
        proof {
            if a < n {
                assert(t[0] == s@[a as int]);
                assert(!is_line_ws(t[0]));
            }
            assert(drop_leading(t) == t);
        }
        let mut b: usize = n - a;
        proof {
            assert(t.take(n - a) =~= t);
        }
        while b > 0 && (s[a + b - 1] == 32 || s[a + b - 1] == 9 || s[a + b - 1] == 10 || s[a + b
            - 1] == 13)
            invariant
                b <= n - a,
                a <= n,
                n == s@.len(),
                t == s@.skip(a as int),
                drop_trailing(t) == drop_trailing(t.take(b as int)),
            decreases b,
        {
            proof {
                assert(t.take(b as int).last() == s@[a + b - 1]);
                assert(t.take(b as int).drop_last() =~= t.take(b - 1));
            }
            b = b - 1;
        }
        proof {
            if b > 0 {
                assert(t.take(b as int).last() == s@[a + b - 1]);
                assert(!is_line_ws(t.take(b as int).last()));
            }
            assert(drop_trailing(t.take(b as int)) == t.take(b as int));
        }
        let bytes = crate::scan::copy_range(s.as_slice(), a, a + b);
        proof {
            assert(bytes@ =~= t.take(b as int));
        }
        *s = Vec::new();
        Line { bytes }
    }

    /// The trimmed line's bytes.
    pub fn as_bytes(&self) -> (r: &Vec<u8>)
        ensures
            r@ == self@,
    {
        &self.bytes
    }

    /// Whether nothing but whitespace was read.
    pub fn is_empty(&self) -> (r: bool)
        ensures
            r == (self@.len() == 0),
    {
        self.bytes.len() == 0
    }
}

} // verus!
