//! JSON pointers: an owned segment list, and a zero-copy view of a
//! pointer behind an optional prefix.

use vstd::prelude::*;

verus! {

/// Error returned when a pointer string does not follow the wire grammar.
#[derive(Clone, Copy, PartialEq, Eq, Structural, Debug)]
pub struct ParseJsonPointerError;

/// An owned JSON pointer: an ordered list of unescaped segments.
/// The view is the sequence of segments, each a sequence of characters.
#[derive(Clone, PartialEq, Debug)]
pub struct JsonPointer {
    pub segments: Vec<String>,
}

impl View for JsonPointer {
    type V = Seq<Seq<char>>;

    open spec fn view(&self) -> Seq<Seq<char>> {
        self.segments.deep_view()
    }
}

/// A non-owning pointer view: the segments of an optional prefix
/// followed by the segments of a path, without concatenating them.
#[derive(Clone, Copy)]
pub struct JsonPointerRef<'a> {
    pub prefix: Option<&'a [String]>,
    pub path: &'a [String],
}

impl<'a> View for JsonPointerRef<'a> {
    type V = Seq<Seq<char>>;

    open spec fn view(&self) -> Seq<Seq<char>> {
        match self.prefix {
            Some(p) => p.deep_view() + self.path.deep_view(),
            None => self.path.deep_view(),
        }
    }
}

/// Anything that can be read as a pointer view.
pub trait ToJsonPointerRef {
    /// The segment list this value stands for.
    spec fn pointer_view(&self) -> Seq<Seq<char>>;

    fn to_json_pointer_ref(&self) -> (r: JsonPointerRef<'_>)
        ensures
            r@ == self.pointer_view(),
    ;
}

impl ToJsonPointerRef for JsonPointer {
    open spec fn pointer_view(&self) -> Seq<Seq<char>> {
        self@
    }

    fn to_json_pointer_ref(&self) -> (r: JsonPointerRef<'_>) {
        self.as_ref()
    }
}

impl<'a> ToJsonPointerRef for &'a JsonPointer {
    open spec fn pointer_view(&self) -> Seq<Seq<char>> {
        (*self)@
    }

    fn to_json_pointer_ref(&self) -> (r: JsonPointerRef<'a>) {
        (*self).as_ref()
    }
}

impl<'a> ToJsonPointerRef for JsonPointerRef<'a> {
    open spec fn pointer_view(&self) -> Seq<Seq<char>> {
        self@
    }

    fn to_json_pointer_ref(&self) -> (r: JsonPointerRef<'a>) {
        *self
    }
}

impl JsonPointer {
    /// The empty pointer, addressing the document root.
    pub fn root() -> (r: JsonPointer)
        ensures
            r@ == Seq::<Seq<char>>::empty(),
    {
        JsonPointer { segments: Vec::new() }
    }

    /// Builds a pointer from an explicit segment list.
    pub fn from_segments(segments: Vec<String>) -> (r: JsonPointer)
        ensures
            r@ == segments.deep_view(),
    {
        JsonPointer { segments }
    }

    /// The number of segments.
    pub fn len(&self) -> (n: usize)
        ensures
            n == self@.len(),
    {
        self.segments.len()
    }

    /// Reads one segment.
    pub fn segment(&self, i: usize) -> (s: &String)
        requires
            i < self@.len(),
        ensures
            s@ == self@[i as int],
    {
        &self.segments[i]
    }

    /// A view of this pointer with no prefix.
    pub fn as_ref(&self) -> (r: JsonPointerRef<'_>)
        ensures
            r@ == self@,
    {
        JsonPointerRef { prefix: None, path: self.segments.as_slice() }
    }

    /// A view of this pointer behind `prefix`.
    pub fn with_prefix<'a>(&'a self, prefix: &'a JsonPointer) -> (r: JsonPointerRef<'a>)
        ensures
            r@ == prefix@ + self@,
    {
        self.with_prefix_opt(Some(prefix))
    }

    /// A view of this pointer behind an optional prefix.
    pub fn with_prefix_opt<'a>(&'a self, prefix: Option<&'a JsonPointer>) -> (r: JsonPointerRef<'a>)
        ensures
            r@ == match prefix {
                Some(p) => p@ + self@,
                None => self@,
            },
    {
        let r = JsonPointerRef {
            prefix: match prefix {
                Some(p) => Some(p.segments.as_slice()),
                None => None,
            },
            path: self.segments.as_slice(),
        };
        proof {
            assert(r@ =~= match prefix {
                Some(p) => p@ + self@,
                None => self@,
            });
        }
        r
    }
}

/// Appends a clone of every segment of `src` to `dst`.
fn append_cloned_segments(dst: &mut Vec<String>, src: &[String])
    ensures
        final(dst).deep_view() == old(dst).deep_view() + src.deep_view(),
{
    let ghost base = dst.deep_view();
    let n = src.len();
    for i in 0..n
        invariant
            n == src@.len(),
            dst.deep_view() =~= base + src.deep_view().subrange(0, i as int),
    {
        let s = src[i].clone();
        proof {
            assert(s@ == src.deep_view()[i as int]);
        }
        let ghost pre = dst.deep_view();
        let ghost prev = dst@;
        dst.push(s);
        proof {
            assert(dst@ == prev.push(s));
            assert(pre =~= base + src.deep_view().subrange(0, i as int));
            assert(pre.len() == base.len() + i);
            assert(dst.deep_view().len() == prev.len() + 1);
            assert(prev.len() == pre.len());
            assert(forall|k: int| 0 <= k < prev.len() ==> #[trigger] dst.deep_view()[k] == pre[k]);
            assert(dst.deep_view()[prev.len() as int] == s@);
            assert(dst.deep_view() =~= base + src.deep_view().subrange(0, i + 1));
        }
    }
    proof {
        assert(src.deep_view().subrange(0, src@.len() as int) =~= src.deep_view());
    }
}

impl<'a> JsonPointerRef<'a> {
    /// Copies the composed segments into an owned pointer.
    pub fn to_owned(&self) -> (r: JsonPointer)
        ensures
            r@ == self@,
    {
        let mut segments: Vec<String> = Vec::new();
        if let Some(p) = self.prefix {
            append_cloned_segments(&mut segments, p);
        }
        append_cloned_segments(&mut segments, self.path);
        proof {
            assert(segments.deep_view() =~= self@);
        }
        JsonPointer { segments }
    }

    /// The composed segment count.
    pub fn len(&self) -> (n: usize)
        requires
            self@.len() <= usize::MAX,
        ensures
            n == self@.len(),
    {
        let prefix_len: usize = match self.prefix {
            Some(p) => p.len(),
            None => 0,
        };
        prefix_len + self.path.len()
    }

    /// True when there are no segments at all.
    pub fn is_empty(&self) -> (b: bool)
        ensures
            b == (self@.len() == 0),
    {
        let prefix_empty = match self.prefix {
            Some(p) => p.is_empty(),
            None => true,
        };
        prefix_empty && self.path.is_empty()
    }

    /// Reads the composed segment at `i`, crossing from prefix to path.
    pub fn segment(&self, i: usize) -> (s: &'a String)
        requires
            i < self@.len(),
        ensures
            s@ == self@[i as int],
    {
        match self.prefix {
            Some(p) => {
                if i < p.len() {
                    &p[i]
                } else {
                    &self.path[i - p.len()]
                }
            },
            None => &self.path[i],
        }
    }

    /// Splits off the last segment, yielding the parent view and the key.
    /// Returns `None` exactly on the empty pointer.
    pub fn split_last(&self) -> (r: Option<(JsonPointerRef<'a>, &'a str)>)
        ensures
            match r {
                Some((parent, key)) => {
                    &&& self@.len() > 0
                    &&& parent@ == self@.drop_last()
                    &&& key@ == self@.last()
                },
                None => self@.len() == 0,
            },
    {
        if self.path.len() > 0 {
            let n = self.path.len();
            let parent = JsonPointerRef { prefix: self.prefix, path: &self.path[0..n - 1] };
            let key: &'a str = self.path[n - 1].as_str();
            proof {
                assert(parent@ =~= self@.drop_last());
            }
            Some((parent, key))
        } else {
            match self.prefix {
                Some(p) if p.len() > 0 => {
                    let n = p.len();
                    let parent = JsonPointerRef { prefix: None, path: &p[0..n - 1] };
                    let key: &'a str = p[n - 1].as_str();
                    proof {
                        assert(parent@ =~= self@.drop_last());
                        assert(key@ == self@.last());
                    }
                    Some((parent, key))
                },
                _ => None,
            }
        }
    }

    /// True when the composed segments of `needle` are a prefix of this
    /// pointer's composed segments.
    pub fn starts_with(&self, needle: JsonPointerRef<'_>) -> (b: bool)
        requires
            self@.len() <= usize::MAX,
            needle@.len() <= usize::MAX,
        ensures
            b == needle@.is_prefix_of(self@),
    {
        let nlen = needle.len();
        if nlen > self.len() {
            return false;
        }
        let mut i: usize = 0;
        while i < nlen
            invariant
                nlen == needle@.len() <= self@.len() <= usize::MAX,
                i <= nlen,
                forall|k: int| 0 <= k < i ==> self@[k] == needle@[k],
            decreases nlen - i,
        {
            if !String::eq(self.segment(i), needle.segment(i)) {
                proof {
                    assert(self@.subrange(0, nlen as int)[i as int] != needle@[i as int]);
                }
                return false;
            }
            i = i + 1;
        }
        proof {
            assert(needle@ =~= self@.subrange(0, nlen as int));
        }
        true
    }

    /// Drops `prefix` from the front of this pointer, when it is a prefix.
    pub fn strip_prefix(&self, prefix: JsonPointerRef<'_>) -> (r: Option<JsonPointerRef<'a>>)
        requires
            self@.len() <= usize::MAX,
            prefix@.len() <= usize::MAX,
        ensures
            match r {
                Some(rest) => prefix@.is_prefix_of(self@) && rest@ == self@.subrange(
                    prefix@.len() as int,
                    self@.len() as int,
                ),
                None => !prefix@.is_prefix_of(self@),
            },
    {
        if !self.starts_with(prefix) {
            return None;
        }
        let count = prefix.len();
        let (new_prefix, path_strip) = match self.prefix {
            Some(p) => {
                let strip_len = if p.len() < count {
                    p.len()
                } else {
                    count
                };
                let rest_prefix = &p[strip_len..p.len()];
                if rest_prefix.len() > 0 {
                    (Some(rest_prefix), count - strip_len)
                } else {
                    (None, count - strip_len)
                }
            },
            None => (None, count),
        };
        let rest = JsonPointerRef {
            prefix: new_prefix,
            path: &self.path[path_strip..self.path.len()],
        };
        proof {
            assert(rest@ =~= self@.subrange(prefix@.len() as int, self@.len() as int));
        }
        Some(rest)
    }

    /// Copies the composed segments out as owned strings.
    pub fn iter(&self) -> (r: Vec<String>)
        ensures
            r.deep_view() == self@,
    {
        let p = self.to_owned();
        p.segments
    }
}

} // verus!
