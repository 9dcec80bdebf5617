//! The pointer wire grammar: `""` or `"/" seg ("/" seg)*`, where a segment
//! writes `~` as `~0` and `/` as `~1`.  A lone `~` not followed by `0` or `1`
//! stands for itself.

use vstd::prelude::*;

use crate::pointer::JsonPointer;
use crate::pointer::JsonPointerRef;
use crate::pointer::ParseJsonPointerError;
use crate::text::chars_of;

verus! {

/// Decodes the escape pairs of one wire segment: `~0` to `~`, `~1` to `/`.
pub open spec fn unescape(s: Seq<char>) -> Seq<char>
    decreases s.len(),
{
    if s.len() == 0 {
        Seq::empty()
    } else if s[0] == '~' && s.len() >= 2 && (s[1] == '0' || s[1] == '1') {
        seq![if s[1] == '0' { '~' } else { '/' }] + unescape(s.skip(2))
    } else {
        seq![s[0]] + unescape(s.skip(1))
    }
}

/// Encodes one segment for the wire: `~` as `~0`, `/` as `~1`.
pub open spec fn escape(s: Seq<char>) -> Seq<char>
    decreases s.len(),
{
    if s.len() == 0 {
        Seq::empty()
    } else if s[0] == '~' {
        seq!['~', '0'] + escape(s.skip(1))
    } else if s[0] == '/' {
        seq!['~', '1'] + escape(s.skip(1))
    } else {
        seq![s[0]] + escape(s.skip(1))
    }
}

/// The position of the first `/` at or after `i`, or the length when none.
pub open spec fn seg_end(s: Seq<char>, i: int) -> int
    decreases s.len() - i,
    when 0 <= i <= s.len()
{
    if i >= s.len() {
        i
    } else if s[i] == '/' {
        i
    } else {
        seg_end(s, i + 1)
    }
}

/// Parses the repeated `"/" seg` form; the argument starts at a `/` or is empty.
pub open spec fn parse_segments(s: Seq<char>) -> Seq<Seq<char>>
    decreases s.len(),
    via parse_segments_decreases
{
    if s.len() == 0 {
        Seq::empty()
    } else {
        let e = seg_end(s, 1);
        seq![unescape(s.subrange(1, e))] + parse_segments(s.skip(e))
    }
}

#[via_fn]
proof fn parse_segments_decreases(s: Seq<char>) {
    if s.len() != 0 {
        lemma_seg_end_bounds(s, 1);
    }
}

/// The whole pointer grammar.  `None` exactly when a non-empty string does
/// not begin with `/`.
pub open spec fn parse_pointer(s: Seq<char>) -> Option<Seq<Seq<char>>> {
    if s.len() == 0 {
        Some(Seq::empty())
    } else if s[0] != '/' {
        None
    } else {
        Some(parse_segments(s))
    }
}

/// Prints a segment list in wire form: `/` then the escaped segment, for each.
pub open spec fn print_pointer(segs: Seq<Seq<char>>) -> Seq<char>
    decreases segs.len(),
{
    if segs.len() == 0 {
        Seq::empty()
    } else {
        seq!['/'] + escape(segs[0]) + print_pointer(segs.skip(1))
    }
}

/// `seg_end` stays within `[i, len]`, passes no `/`, and stops only at one.
pub proof fn lemma_seg_end_bounds(s: Seq<char>, i: int)
    requires
        0 <= i <= s.len(),
    ensures
        i <= seg_end(s, i) <= s.len(),
        forall|k: int| i <= k < seg_end(s, i) ==> s[k] != '/',
        seg_end(s, i) < s.len() ==> s[seg_end(s, i)] == '/',
    decreases s.len() - i,
{
    if i < s.len() && s[i] != '/' {
        lemma_seg_end_bounds(s, i + 1);
    }
}

/// `seg_end` is pinned by a slash-free span that ends at the length or at a `/`.
pub proof fn lemma_seg_end_pinned(s: Seq<char>, i: int, e: int)
    requires
        0 <= i <= e <= s.len(),
        forall|k: int| i <= k < e ==> s[k] != '/',
        e == s.len() || s[e] == '/',
    ensures
        seg_end(s, i) == e,
    decreases e - i,
{
    if i < e {
        lemma_seg_end_pinned(s, i + 1, e);
    }
}

/// Escaping writes no `/`.
pub proof fn lemma_escape_no_slash(s: Seq<char>)
    ensures
        forall|k: int| 0 <= k < escape(s).len() ==> escape(s)[k] != '/',
    decreases s.len(),
{
    if s.len() > 0 {
        lemma_escape_no_slash(s.skip(1));
        let rest = escape(s.skip(1));
        let head: Seq<char> = if s[0] == '~' {
            seq!['~', '0']
        } else if s[0] == '/' {
            seq!['~', '1']
        } else {
            seq![s[0]]
        };
        assert(escape(s) == head + rest);
        assert forall|k: int| 0 <= k < escape(s).len() implies escape(s)[k] != '/' by {
            if k < head.len() {
                assert(escape(s)[k] == head[k]);
            } else {
                assert(escape(s)[k] == rest[k - head.len()]);
            }
        }
    }
}

/// Decoding inverts encoding, segment by segment.
pub proof fn lemma_unescape_escape(s: Seq<char>)
    ensures
        unescape(escape(s)) == s,
    decreases s.len(),
{
    if s.len() == 0 {
        assert(unescape(escape(s)) =~= s);
    } else {
        lemma_unescape_escape(s.skip(1));
        let rest = escape(s.skip(1));
        if s[0] == '~' {
            assert(escape(s) == seq!['~', '0'] + rest);
            assert(escape(s).skip(2) =~= rest);
            assert(unescape(escape(s)) =~= s);
        } else if s[0] == '/' {
            assert(escape(s) == seq!['~', '1'] + rest);
            assert(escape(s).skip(2) =~= rest);
            assert(unescape(escape(s)) =~= s);
        } else {
            assert(escape(s) == seq![s[0]] + rest);
            assert(escape(s).skip(1) =~= rest);
            assert(unescape(escape(s)) =~= s);
        }
    }
}

/// Printing a segment list and parsing the result yields the same list:
/// the wire form loses nothing.
pub proof fn lemma_pointer_roundtrip(segs: Seq<Seq<char>>)
    ensures
        parse_pointer(print_pointer(segs)) == Some(segs),
    decreases segs.len(),
{
    if segs.len() == 0 {
        assert(parse_pointer(print_pointer(segs)) == Some(Seq::<Seq<char>>::empty()));
        assert(Seq::<Seq<char>>::empty() =~= segs);
    } else {
        let s0 = segs[0];
        let rest = segs.skip(1);
        let esc = escape(s0);
        let tail = print_pointer(rest);
        let s = print_pointer(segs);
        assert(s == seq!['/'] + esc + tail);
        assert(s.len() == 1 + esc.len() + tail.len());
        assert(s[0] == '/');

        lemma_pointer_roundtrip(rest);
        lemma_escape_no_slash(s0);

        // The first segment of the wire form ends exactly after the escaped text.
        let e = 1 + esc.len() as int;
        assert(forall|k: int| 1 <= k < e ==> s[k] != '/') by {
            assert(forall|k: int| 1 <= k < e ==> s[k] == esc[k - 1]);
        }
        if rest.len() == 0 {
            assert(tail =~= Seq::<char>::empty());
            assert(e == s.len());
        } else {
            assert(tail[0] == '/');
            assert(s[e] == '/');
        }
        lemma_seg_end_pinned(s, 1, e);
        assert(seg_end(s, 1) == e);
        assert(s.subrange(1, e) =~= esc);
        lemma_unescape_escape(s0);
        assert(unescape(s.subrange(1, e)) == s0);
        assert(s.skip(e) =~= tail);
        if rest.len() == 0 {
            assert(parse_segments(s.skip(e)) =~= rest);
        } else {
            assert(parse_pointer(tail) == Some(rest));
            assert(parse_segments(tail) == rest);
        }
        assert(parse_segments(s) == seq![s0] + rest);
        assert(seq![s0] + rest =~= segs);
    }
}

/// Escaping distributes over concatenation.
pub proof fn lemma_escape_append(a: Seq<char>, b: Seq<char>)
    ensures
        escape(a + b) == escape(a) + escape(b),
    decreases a.len(),
{
    if a.len() == 0 {
        assert(a + b =~= b);
        assert(escape(a) + escape(b) =~= escape(b));
    } else {
        lemma_escape_append(a.skip(1), b);
        assert((a + b).skip(1) =~= a.skip(1) + b);
        assert((a + b)[0] == a[0]);
        assert((a + b).len() > 0);
        assert(escape(a + b) =~= escape(a) + escape(b));
    }
}

/// Printing distributes over concatenation of segment lists.
pub proof fn lemma_print_append(a: Seq<Seq<char>>, b: Seq<Seq<char>>)
    ensures
        print_pointer(a + b) == print_pointer(a) + print_pointer(b),
    decreases a.len(),
{
    if a.len() == 0 {
        assert(a + b =~= b);
        assert(print_pointer(a) + print_pointer(b) =~= print_pointer(b));
    } else {
        lemma_print_append(a.skip(1), b);
        assert((a + b).skip(1) =~= a.skip(1) + b);
        assert((a + b)[0] == a[0]);
        assert((a + b).len() > 0);
        assert(print_pointer(a + b) =~= print_pointer(a) + print_pointer(b));
    }
}

/// True for the two bytes that may follow `~` in an escape pair.
pub fn is_escape_char(ch: u8) -> (r: bool)
    ensures
        r == (ch == 48 || ch == 49),
{
    ch == 48 || ch == 49
}

/// The position of the first `/` in `cs` at or after `start`.
fn find_seg_end(cs: &Vec<char>, start: usize) -> (e: usize)
    requires
        start <= cs@.len(),
    ensures
        start <= e <= cs@.len(),
        forall|k: int| start <= k < e ==> cs@[k] != '/',
        e < cs@.len() ==> cs@[e as int] == '/',
{
    let mut e = start;
    while e < cs.len()
        invariant
            start <= e <= cs@.len(),
            forall|k: int| start <= k < e ==> cs@[k] != '/',
        decreases cs@.len() - e,
    {
        if cs[e] == '/' {
            return e;
        }
        e = e + 1;
    }
    e
}

/// Decodes the characters of `cs` between `a` and `b` into one segment.
fn unescape_range(cs: &Vec<char>, a: usize, b: usize) -> (s: String)
    requires
        a <= b <= cs@.len(),
    ensures
        s@ == unescape(cs@.subrange(a as int, b as int)),
{
    let mut s = String::new();
    let mut j = a;
    proof {
        assert(s@ + unescape(cs@.subrange(a as int, b as int)) =~= unescape(
            cs@.subrange(a as int, b as int),
        ));
    }
    while j < b
        invariant
            a <= j <= b <= cs@.len(),
            unescape(cs@.subrange(a as int, b as int)) == s@ + unescape(
                cs@.subrange(j as int, b as int),
            ),
        decreases b - j,
    {
        let ghost sub = cs@.subrange(j as int, b as int);
        let c = cs[j];
        if c == '~' && j + 1 < b && (cs[j + 1] == '0' || cs[j + 1] == '1') {
            let d = if cs[j + 1] == '0' {
                '~'
            } else {
                '/'
            };
            proof {
                assert(sub[0] == '~');
                assert(sub[1] == cs@[j + 1]);
                assert(sub.len() >= 2);
                assert(unescape(sub) == seq![d] + unescape(sub.skip(2)));
                assert(sub.skip(2) =~= cs@.subrange(j + 2, b as int));
                assert(s@.push(d) + unescape(cs@.subrange(j + 2, b as int)) =~= s@ + unescape(sub));
            }
            s.push(d);
            j = j + 2;
        } else {
            proof {
                assert(sub[0] == c);
                assert(!(sub[0] == '~' && sub.len() >= 2 && (sub[1] == '0' || sub[1] == '1')));
                assert(unescape(sub) == seq![c] + unescape(sub.skip(1)));
                assert(sub.skip(1) =~= cs@.subrange(j + 1, b as int));
                assert(s@.push(c) + unescape(cs@.subrange(j + 1, b as int)) =~= s@ + unescape(sub));
            }
            s.push(c);
            j = j + 1;
        }
    }
    proof {
        assert(cs@.subrange(b as int, b as int) =~= Seq::<char>::empty());
        assert(s@ + unescape(Seq::<char>::empty()) =~= s@);
    }
    s
}

/// Appends a segment to a list, for the segment-view bookkeeping.
fn push_segment(v: &mut Vec<String>, s: String)
    ensures
        final(v).deep_view() == old(v).deep_view().push(s@),
{
    let ghost pre = v.deep_view();
    let ghost prev = v@;
    v.push(s);
    proof {
        assert(v@ == prev.push(s));
        assert(v.deep_view().len() == prev.len() + 1);
        assert(forall|k: int| 0 <= k < prev.len() ==> #[trigger] v.deep_view()[k] == pre[k]);
        assert(v.deep_view()[prev.len() as int] == s@);
        assert(v.deep_view() =~= pre.push(s@));
    }
}

/// Parses a wire-form pointer string into its segment list.  Fails exactly
/// when a non-empty string does not begin with `/`.
pub fn parse_json_pointer(input: &str) -> (r: Result<Vec<String>, ParseJsonPointerError>)
    ensures
        match r {
            Ok(v) => parse_pointer(input@) == Some(v.deep_view()),
            Err(_) => parse_pointer(input@) is None,
        },
{
    let cs = chars_of(input);
    if cs.len() == 0 {
        let v: Vec<String> = Vec::new();
        proof {
            assert(v.deep_view() =~= Seq::<Seq<char>>::empty());
        }
        return Ok(v);
    }
    if cs[0] != '/' {
        return Err(ParseJsonPointerError);
    }
    let mut segments: Vec<String> = Vec::new();
    let mut i: usize = 0;
    proof {
        assert(cs@.skip(0) =~= cs@);
        assert(segments.deep_view() + parse_segments(cs@) =~= parse_segments(cs@));
    }
    while i < cs.len()
        invariant
            cs@ == input@,
            cs@.len() > 0,
            cs@[0] == '/',
            i <= cs@.len(),
            i == cs@.len() || cs@[i as int] == '/',
            parse_segments(cs@) == segments.deep_view() + parse_segments(cs@.skip(i as int)),
        decreases cs@.len() - i,
    {
        let e = find_seg_end(&cs, i + 1);
        let seg = unescape_range(&cs, i + 1, e);
        proof {
            let suf = cs@.skip(i as int);
            assert(suf.len() > 0);
            assert forall|k: int| 1 <= k < e - i implies suf[k] != '/' by {
                assert(suf[k] == cs@[i + k]);
            }
            if e < cs@.len() {
                assert(suf[e - i] == cs@[e as int]);
            }
            lemma_seg_end_pinned(suf, 1, e - i);
            assert(parse_segments(suf) == seq![unescape(suf.subrange(1, e - i))] + parse_segments(
                suf.skip(e - i),
            ));
            assert(suf.subrange(1, e - i) =~= cs@.subrange(i + 1, e as int));
            assert(suf.skip(e - i) =~= cs@.skip(e as int));
            assert(seg@ == unescape(suf.subrange(1, e - i)));
            assert(segments.deep_view() + parse_segments(suf) =~= segments.deep_view().push(seg@)
                + parse_segments(cs@.skip(e as int)));
        }
        push_segment(&mut segments, seg);
        i = e;
    }
    proof {
        assert(cs@.skip(cs@.len() as int) =~= Seq::<char>::empty());
        assert(segments.deep_view() + parse_segments(cs@.skip(cs@.len() as int))
            =~= segments.deep_view());
    }
    Ok(segments)
}

impl core::str::FromStr for JsonPointer {
    type Err = ParseJsonPointerError;

    fn from_str(s: &str) -> Result<JsonPointer, ParseJsonPointerError> {
        match parse_json_pointer(s) {
            Ok(v) => Ok(JsonPointer::from_segments(v)),
            Err(e) => Err(e),
        }
    }
}

/// Appends the escaped form of `seg` to `dst`.
fn escape_push(dst: &mut String, seg: &str)
    ensures
        final(dst)@ == old(dst)@ + escape(seg@),
{
    let v = chars_of(seg);
    let n = v.len();
    proof {
        assert(v@.subrange(0, 0) =~= Seq::<char>::empty());
        assert(dst@ + escape(Seq::<char>::empty()) =~= dst@);
    }
    for j in 0..n
        invariant
            n == v@.len(),
            v@ == seg@,
            dst@ == old(dst)@ + escape(v@.subrange(0, j as int)),
    {
        let c = v[j];
        proof {
            let single = seq![v@[j as int]];
            assert(v@.subrange(0, j + 1) =~= v@.subrange(0, j as int) + single);
            lemma_escape_append(v@.subrange(0, j as int), single);
            assert(single.skip(1) =~= Seq::<char>::empty());
            reveal_with_fuel(escape, 2);
            if c == '~' {
                assert(escape(single) =~= seq!['~', '0']);
            } else if c == '/' {
                assert(escape(single) =~= seq!['~', '1']);
            } else {
                assert(escape(single) =~= seq![c]);
            }
        }
        if c == '~' {
            dst.push('~');
            dst.push('0');
        } else if c == '/' {
            dst.push('~');
            dst.push('1');
        } else {
            dst.push(c);
        }
        proof {
            assert(dst@ =~= old(dst)@ + escape(v@.subrange(0, j + 1)));
        }
    }
    proof {
        assert(v@.subrange(0, n as int) =~= seg@);
    }
}

impl<'a> JsonPointerRef<'a> {
    /// Writes this pointer in wire form, escaping each segment.
    pub fn to_string(&self) -> (r: String)
        requires
            self@.len() <= usize::MAX,
        ensures
            r@ == print_pointer(self@),
    {
        let mut s = String::new();
        let n = self.len();
        proof {
            assert(self@.subrange(0, 0) =~= Seq::<Seq<char>>::empty());
            assert(s@ =~= print_pointer(self@.subrange(0, 0)));
        }
        for i in 0..n
            invariant
                n == self@.len(),
                s@ == print_pointer(self@.subrange(0, i as int)),
        {
            let seg = self.segment(i);
            proof {
                let single = seq![self@[i as int]];
                assert(self@.subrange(0, i + 1) =~= self@.subrange(0, i as int) + single);
                lemma_print_append(self@.subrange(0, i as int), single);
                assert(single.skip(1) =~= Seq::<Seq<char>>::empty());
                reveal_with_fuel(print_pointer, 2);
                reveal_with_fuel(escape, 1);
                assert(print_pointer(single) =~= seq!['/'] + escape(self@[i as int]));
            }
            s.push('/');
            escape_push(&mut s, seg.as_str());
            proof {
                assert(s@ =~= print_pointer(self@.subrange(0, i + 1)));
            }
        }
        proof {
            assert(self@.subrange(0, n as int) =~= self@);
        }
        s
    }
}

impl JsonPointer {
    /// Writes this pointer in wire form, escaping each segment.
    pub fn to_string(&self) -> (r: String)
        ensures
            r@ == print_pointer(self@),
    {
        let n = self.len();
        proof {
            assert(self@.len() <= usize::MAX);
        }
        self.as_ref().to_string()
    }
}

} // verus!
