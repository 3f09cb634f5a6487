//! Slash-delimited paths: parsing a path string into an ordered sequence of
//! segments, and rendering the segments back into a string.
//!
//! Parsing is total: it splits on `/`, drops the component before the first
//! slash, and keeps every later component, empty ones included. Rendering
//! writes `/` followed by each segment followed by `/`, so it is not a strict
//! inverse of parsing: parsing `"/a/b"` yields `["a", "b"]`, which renders as
//! `"/a/b/"`.

use vstd::prelude::*;
use vstd::string::StrSliceExecFns;
use vstd::string::StringExecFns;

verus! {

/// All the `sep`-separated components of `s`, in order. There is always at
/// least one component, and consecutive separators yield empty ones, exactly
/// as `str::split` behaves.
pub open spec fn split_on(s: Seq<char>, sep: char) -> Seq<Seq<char>>
    decreases s.len(),
{
    if s.len() == 0 {
        seq![Seq::<char>::empty()]
    } else if s[0] == sep {
        seq![Seq::<char>::empty()] + split_on(s.skip(1), sep)
    } else {
        let rest = split_on(s.skip(1), sep);
        seq![seq![s[0]] + rest[0]] + rest.skip(1)
    }
}

pub proof fn lemma_split_on_len(s: Seq<char>, sep: char)
    ensures
        split_on(s, sep).len() >= 1,
    decreases s.len(),
{
    if s.len() != 0 && s[0] == sep {
        lemma_split_on_len(s.skip(1), sep);
    }
}

/// The segments that parsing a path string produces: every `/`-separated
/// component after the first one.
pub open spec fn parse_segments(s: Seq<char>) -> Seq<Seq<char>> {
    split_on(s, '/').skip(1)
}

/// The text that rendering the segment sequence `segs` appends after the
/// leading slash: each segment followed by `/`.
pub open spec fn rendered_tail(segs: Seq<Seq<char>>) -> Seq<char>
    decreases segs.len(),
{
    if segs.len() == 0 {
        Seq::empty()
    } else {
        segs[0] + seq!['/'] + rendered_tail(segs.skip(1))
    }
}

/// The string form of a segment sequence: `/`, then each segment followed by `/`.
pub open spec fn rendered(segs: Seq<Seq<char>>) -> Seq<char> {
    seq!['/'] + rendered_tail(segs)
}

/// An ordered sequence of path segments, reconstructed from a string of the
/// form `/seg1/seg2/.../segN`.
#[derive(Debug, Clone)]
pub struct Path {
    pub elements: Vec<String>,
}

impl View for Path {
    type V = Seq<Seq<char>>;

    open spec fn view(&self) -> Seq<Seq<char>> {
        self.elements.deep_view()
    }
}

/// Splits `s` on `sep`, as `str::split` does.
pub(crate) fn split_str(s: &str, sep: char) -> (r: Vec<String>)
    ensures
        r.deep_view() == split_on(s@, sep),
{
    let n = s.unicode_len();
    let mut parts: Vec<String> = Vec::new();
    let mut start: usize = 0;
    let mut i: usize = 0;
    proof {
        lemma_split_on_len(s@, sep);
        assert(s@.skip(0) =~= s@);
        assert(split_on(s@, sep) =~= parts.deep_view() + seq![
            s@.subrange(0, 0) + split_on(s@.skip(0), sep)[0],
        ] + split_on(s@.skip(0), sep).skip(1));
    }
    while i < n
        invariant
            n == s@.len(),
            start <= i <= n,
            split_on(s@, sep) =~= parts.deep_view() + seq![
                s@.subrange(start as int, i as int) + split_on(s@.skip(i as int), sep)[0],
            ] + split_on(s@.skip(i as int), sep).skip(1),
        decreases n - i,
    {
        let c = s.get_char(i);
        proof {
            assert(s@.skip(i as int).len() > 0);
            assert(s@.skip(i as int)[0] == s@[i as int]);
            assert(s@.skip(i as int).skip(1) =~= s@.skip(i + 1));
            lemma_split_on_len(s@.skip(i + 1), sep);
        }
        if c == sep {
            let piece = s.substring_char(start, i);
            parts.push(piece.to_owned());
            proof {
                let old_parts = parts.deep_view().take(parts.deep_view().len() - 1);
                assert(parts.deep_view() =~= old_parts + seq![s@.subrange(start as int, i as int)]);
                assert(split_on(s@.skip(i as int), sep) == seq![Seq::<char>::empty()] + split_on(
                    s@.skip(i + 1),
                    sep,
                ));
                assert(s@.subrange(start as int, i as int) + Seq::<char>::empty() =~= s@.subrange(
                    start as int,
                    i as int,
                ));
                assert(s@.subrange(i + 1, i + 1) + split_on(s@.skip(i + 1), sep)[0] =~= split_on(
                    s@.skip(i + 1),
                    sep,
                )[0]);
                assert((seq![Seq::<char>::empty()] + split_on(s@.skip(i + 1), sep)).skip(1)
                    =~= split_on(s@.skip(i + 1), sep));
                assert(split_on(s@, sep) =~= parts.deep_view() + seq![
                    s@.subrange(i + 1, i + 1) + split_on(s@.skip(i + 1), sep)[0],
                ] + split_on(s@.skip(i + 1), sep).skip(1));
            }
            start = i + 1;
        } else {
            proof {
                let rest = split_on(s@.skip(i + 1), sep);
                assert(split_on(s@.skip(i as int), sep) == seq![seq![s@[i as int]] + rest[0]]
                    + rest.skip(1));
                assert(s@.subrange(start as int, i as int) + (seq![s@[i as int]] + rest[0])
                    =~= s@.subrange(start as int, i + 1) + rest[0]);
                assert((seq![seq![s@[i as int]] + rest[0]] + rest.skip(1)).skip(1) =~= rest.skip(
                    1,
                ));
                assert(split_on(s@, sep) =~= parts.deep_view() + seq![
                    s@.subrange(start as int, i + 1) + rest[0],
                ] + rest.skip(1));
            }
        }
        i = i + 1;
    }
    let piece = s.substring_char(start, n);
    parts.push(piece.to_owned());
    proof {
        assert(s@.skip(n as int) =~= Seq::<char>::empty());
        assert(split_on(s@.skip(n as int), sep) == seq![Seq::<char>::empty()]);
        let old_parts = parts.deep_view().take(parts.deep_view().len() - 1);
        assert(parts.deep_view() =~= old_parts + seq![s@.subrange(start as int, n as int)]);
        assert(s@.subrange(start as int, n as int) + Seq::<char>::empty() =~= s@.subrange(
            start as int,
            n as int,
        ));
        assert(parts.deep_view() =~= split_on(s@, sep));
    }
    parts
}

impl Path {
    /// Parses a path string: splits on `/` and keeps every component after
    /// the first, so `"/a/b"` yields `["a", "b"]` and `"//a"` yields
    /// `["", "a"]`. Never fails; invalid segments surface only during
    /// resolution.
    pub fn from(value: &str) -> (r: Path)
        ensures
            r@ == parse_segments(value@),
    {
        let mut parts = split_str(value, '/');
        proof {
            lemma_split_on_len(value@, '/');
            assert(parts.deep_view().len() == parts@.len());
        }
        parts.remove(0);
        let r = Path { elements: parts };
        proof {
            assert(r@ =~= parse_segments(value@));
        }
        r
    }

    /// Renders the path: `/` followed by each segment followed by `/`, so
    /// segments `["usr", "bin"]` render as `"/usr/bin/"`. Used for
    /// diagnostics only; not a strict inverse of parsing.
    pub fn render(&self) -> (r: String)
        ensures
            r@ == rendered(self@),
    {
        let mut r = "/".to_owned();
        proof {
            reveal_strlit("/");
            assert(r@ =~= seq!['/']);
            assert(self@.skip(0) =~= self@);
        }
        let mut k: usize = 0;
        while k < self.elements.len()
            invariant
                k <= self.elements.len(),
                self@.len() == self.elements@.len(),
                rendered(self@) =~= r@ + rendered_tail(self@.skip(k as int)),
            decreases self.elements.len() - k,
        {
            r.append(self.elements[k].as_str());
            r.append("/");
            proof {
                reveal_strlit("/");
                let tail = self@.skip(k as int);
                assert(tail[0] == self@[k as int]);
                assert(tail.skip(1) =~= self@.skip(k + 1));
                assert(rendered_tail(tail) == tail[0] + seq!['/'] + rendered_tail(tail.skip(1)));
                assert(r@ =~= (r@ + rendered_tail(self@.skip(k + 1))).take(r@.len() as int));
            }
            k = k + 1;
        }
        proof {
            assert(self@.skip(self@.len() as int) =~= Seq::<Seq<char>>::empty());
            assert(rendered_tail(self@.skip(self@.len() as int)) =~= Seq::<char>::empty());
            assert(rendered(self@) =~= r@);
        }
        r
    }
}

/// `sep` does not occur in `p`, so splitting `p + x` keeps `p` glued to the
/// front of the first component of splitting `x`.
proof fn lemma_split_on_free_prefix(p: Seq<char>, x: Seq<char>, sep: char)
    requires
        forall|k: int| 0 <= k < p.len() ==> p[k] != sep,
    ensures
        split_on(p + x, sep) == seq![p + split_on(x, sep)[0]] + split_on(x, sep).skip(1),
    decreases p.len(),
{
    lemma_split_on_len(x, sep);
    if p.len() == 0 {
        assert(p + x =~= x);
        assert(p + split_on(x, sep)[0] =~= split_on(x, sep)[0]);
        assert(seq![split_on(x, sep)[0]] + split_on(x, sep).skip(1) =~= split_on(x, sep));
    } else {
        let s = p + x;
        assert(s.len() > 0);
        assert(s[0] == p[0]);
        assert(s[0] != sep);
        assert(s.skip(1) =~= p.skip(1) + x);
        lemma_split_on_free_prefix(p.skip(1), x, sep);
        let rest = split_on(p.skip(1) + x, sep);
        assert(split_on(s, sep) == seq![seq![s[0]] + rest[0]] + rest.skip(1));
        assert(rest[0] == p.skip(1) + split_on(x, sep)[0]);
        assert(seq![s[0]] + (p.skip(1) + split_on(x, sep)[0]) =~= p + split_on(x, sep)[0]);
        assert(rest.skip(1) =~= split_on(x, sep).skip(1));
        assert(split_on(s, sep) =~= seq![p + split_on(x, sep)[0]] + split_on(x, sep).skip(1));
    }
}

proof fn lemma_parse_rendered_tail(segs: Seq<Seq<char>>)
    requires
        forall|k: int| 0 <= k < segs.len() ==> !segs[k].contains('/'),
    ensures
        split_on(rendered_tail(segs), '/') == segs + seq![Seq::<char>::empty()],
    decreases segs.len(),
{
    if segs.len() == 0 {
        assert(rendered_tail(segs).len() == 0);
        assert(split_on(rendered_tail(segs), '/') == seq![Seq::<char>::empty()]);
        assert(seq![Seq::<char>::empty()] =~= segs + seq![Seq::<char>::empty()]);
    } else {
        let head = segs[0];
        let tail = rendered_tail(segs.skip(1));
        lemma_parse_rendered_tail(segs.skip(1));
        assert(rendered_tail(segs) == head + seq!['/'] + tail);
        assert(head + seq!['/'] + tail =~= head + (seq!['/'] + tail));
        assert(forall|k: int| 0 <= k < head.len() ==> head[k] != '/') by {
            assert(forall|k: int| 0 <= k < head.len() ==> head.contains(head[k]));
        }
        lemma_split_on_free_prefix(head, seq!['/'] + tail, '/');
        let inner = seq!['/'] + tail;
        assert(inner.len() > 0);
        assert(inner[0] == '/');
        assert(inner.skip(1) =~= tail);
        assert(split_on(inner, '/') == seq![Seq::<char>::empty()] + split_on(tail, '/'));
        assert(split_on(inner, '/')[0] =~= Seq::<char>::empty());
        assert(head + split_on(inner, '/')[0] =~= head);
        assert(split_on(inner, '/').skip(1) =~= split_on(tail, '/'));
        assert(split_on(rendered_tail(segs), '/') == seq![head] + split_on(tail, '/'));
        assert(seq![head] + (segs.skip(1) + seq![Seq::<char>::empty()]) =~= segs + seq![
            Seq::<char>::empty(),
        ]);
    }
}

/// Parsing the rendering of `segs` gives back `segs` with one extra empty
/// segment, produced by the trailing slash that rendering always writes:
/// rendering is not a strict inverse of parsing.
pub proof fn lemma_parse_of_render(segs: Seq<Seq<char>>)
    requires
        forall|k: int| 0 <= k < segs.len() ==> !segs[k].contains('/'),
    ensures
        parse_segments(rendered(segs)) == segs + seq![Seq::<char>::empty()],
{
    let tail = rendered_tail(segs);
    lemma_parse_rendered_tail(segs);
    assert(rendered(segs).len() > 0);
    assert(rendered(segs)[0] == '/');
    assert(rendered(segs).skip(1) =~= tail);
    assert(split_on(rendered(segs), '/') == seq![Seq::<char>::empty()] + split_on(tail, '/'));
    assert(parse_segments(rendered(segs)) =~= split_on(tail, '/'));
}

} // verus!
