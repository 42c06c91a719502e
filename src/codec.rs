use vstd::prelude::*;
use crate::text::{chars_of, push_char, push_str};

verus! {

/// What one character becomes under the map: its replacement if it has one,
/// else itself.
pub open spec fn piece(c: char, m: Map<char, Seq<char>>) -> Seq<char> {
    if m.contains_key(c) {
        m[c]
    } else {
        seq![c]
    }
}

/// Each character of `s` replaced by its piece, in order.
pub open spec fn encode_spec(s: Seq<char>, m: Map<char, Seq<char>>) -> Seq<char>
    decreases s.len(),
{
    if s.len() == 0 {
        Seq::empty()
    } else {
        encode_spec(s.drop_last(), m) + piece(s.last(), m)
    }
}

/// The greedy scanner: from buffer `buf` and output `out`, read `s` one
/// character at a time; whenever the buffer equals a key of `rm`, emit the
/// mapped character and empty the buffer. Returns the final buffer and output.
pub open spec fn scan(buf: Seq<char>, out: Seq<char>, s: Seq<char>, rm: Map<Seq<char>, char>) -> (
    Seq<char>,
    Seq<char>,
)
    decreases s.len(),
{
    if s.len() == 0 {
        (buf, out)
    } else {
        let b = buf.push(s[0]);
        if rm.contains_key(b) {
            scan(Seq::empty(), out.push(rm[b]), s.drop_first(), rm)
        } else {
            scan(b, out, s.drop_first(), rm)
        }
    }
}

/// What decoding `s` gives: the output of the scan from an empty buffer; what
/// is left in the buffer at the end is dropped.
pub open spec fn decode_spec(s: Seq<char>, rm: Map<Seq<char>, char>) -> Seq<char> {
    scan(Seq::empty(), Seq::empty(), s, rm).1
}

pub open spec fn is_prefix(p: Seq<char>, q: Seq<char>) -> bool {
    p.len() <= q.len() && q.subrange(0, p.len() as int) == p
}

/// Every replacement is non-empty, and none is a prefix of the replacement of
/// another character (so no two characters share a replacement either).
pub open spec fn prefix_free(m: Map<char, Seq<char>>) -> bool {
    &&& forall|c: char| m.contains_key(c) ==> #[trigger] m[c].len() > 0
    &&& forall|a: char, b: char|
        m.contains_key(a) && m.contains_key(b) && a != b ==> !is_prefix(
            #[trigger] m[a],
            #[trigger] m[b],
        )
}

/// `rm` maps each replacement of `m` back to a character that has it.
pub open spec fn is_reverse(rm: Map<Seq<char>, char>, m: Map<char, Seq<char>>) -> bool {
    &&& forall|v: Seq<char>|
        #[trigger] rm.contains_key(v) ==> m.contains_key(rm[v]) && m[rm[v]] == v
    &&& forall|c: char| #[trigger] m.contains_key(c) ==> rm.contains_key(m[c])
}

/// A substitution table from characters to their replacement strings, each
/// character listed at most once.
pub struct LangMap {
    pub entries: Vec<(char, String)>,
}

impl View for LangMap {
    type V = Map<char, Seq<char>>;

    open spec fn view(&self) -> Map<char, Seq<char>> {
        Map::new(
            |c: char| exists|i: int| 0 <= i < self.entries@.len() && self.entries@[i].0 == c,
            |c: char|
                self.entries@[choose|i: int|
                    0 <= i < self.entries@.len() && self.entries@[i].0 == c].1@,
        )
    }
}

impl LangMap {
    pub open spec fn wf(&self) -> bool {
        forall|i: int, j: int|
            0 <= i < j < self.entries@.len() ==> #[trigger] self.entries@[i].0
                != #[trigger] self.entries@[j].0
    }

    pub fn new() -> (r: LangMap)
        ensures
            r.wf(),
            r@ == Map::<char, Seq<char>>::empty(),
    {
        let r = LangMap { entries: Vec::new() };
        assert(r@ =~= Map::<char, Seq<char>>::empty());
        r
    }

    /// The position of `c` among the entries, if it is there.
    fn position(&self, c: char) -> (r: Option<usize>)
        requires
            self.wf(),
        ensures
            match r {
                Some(i) => i < self.entries@.len() && self.entries@[i as int].0 == c,
                None => !self@.contains_key(c),
            },
    {
        let mut i: usize = 0;
        while i < self.entries.len()
            invariant
                i <= self.entries@.len(),
                forall|k: int| 0 <= k < i ==> self.entries@[k].0 != c,
            decreases self.entries.len() - i,
        {
            if self.entries[i].0 == c {
                return Some(i);
            }
            i = i + 1;
        }
        None
    }

    proof fn lemma_at(&self, i: int)
        requires
            self.wf(),
            0 <= i < self.entries@.len(),
        ensures
            self@.contains_key(self.entries@[i].0),
            self@[self.entries@[i].0] == self.entries@[i].1@,
    {
        let c = self.entries@[i].0;
        let j = choose|j: int| 0 <= j < self.entries@.len() && self.entries@[j].0 == c;
        assert(i == j) by {
            if i < j {
                assert(self.entries@[i].0 != self.entries@[j].0);
            } else if j < i {
                assert(self.entries@[j].0 != self.entries@[i].0);
            }
        }
    }

    /// The replacement of `c`, if it has one.
    pub fn get(&self, c: char) -> (r: Option<&String>)
        requires
            self.wf(),
        ensures
            match r {
                Some(s) => self@.contains_key(c) && self@[c] == s@,
                None => !self@.contains_key(c),
            },
    {
        match self.position(c) {
            Some(i) => {
                proof {
                    self.lemma_at(i as int);
                }
                Some(&self.entries[i].1)
            },
            None => None,
        }
    }
    /// Gives `c` the replacement `s`, in place of any it had.
    pub fn insert(&mut self, c: char, s: String)
        requires
            old(self).wf(),
        ensures
            final(self).wf(),
            final(self)@ == old(self)@.insert(c, s@),
    {
        let ghost s_view = s@;
        match self.position(c) {
            Some(i) => {
                self.entries.set(i, (c, s));
                proof {
                    let o = old(self);
                    assert forall|k: int| 0 <= k < self.entries@.len() implies self.entries@[k].0
                        == o.entries@[k].0 by {}
                    assert forall|d: char| #[trigger] self@.contains_key(d) <==> o@.insert(
                        c,
                        s_view,
                    ).contains_key(d) by {
                        if d != c && o@.contains_key(d) {
                            let j = choose|j: int| 0 <= j < o.entries@.len() && o.entries@[j].0 == d;
                            assert(self.entries@[j].0 == d);
                        }
                        if self@.contains_key(d) {
                            let j = choose|j: int|
                                0 <= j < self.entries@.len() && self.entries@[j].0 == d;
                            assert(o.entries@[j].0 == d);
                        }
                    }
                    assert forall|d: char| #[trigger] self@.contains_key(d) implies self@[d]
                        == o@.insert(c, s_view)[d] by {
                        let j = choose|j: int|
                            0 <= j < self.entries@.len() && self.entries@[j].0 == d;
                        self.lemma_at(j);
                        if j != i {
                            o.lemma_at(j);
                        }
                    }
                    assert(self@ =~= o@.insert(c, s_view));
                }
            },
            None => {
                self.entries.push((c, s));
                proof {
                    let o = old(self);
                    let n = o.entries@.len() as int;
                    assert forall|k: int| 0 <= k < n implies self.entries@[k] == o.entries@[k] by {}
                    assert forall|d: char| #[trigger] self@.contains_key(d) <==> o@.insert(
                        c,
                        s_view,
                    ).contains_key(d) by {
                        if d != c && o@.contains_key(d) {
                            let j = choose|j: int| 0 <= j < o.entries@.len() && o.entries@[j].0 == d;
                            assert(self.entries@[j].0 == d);
                        }
                        if d == c {
                            assert(self.entries@[n].0 == d);
                        }
                        if self@.contains_key(d) && d != c {
                            let j = choose|j: int|
                                0 <= j < self.entries@.len() && self.entries@[j].0 == d;
                            assert(o.entries@[j].0 == d);
                        }
                    }
                    assert forall|d: char| #[trigger] self@.contains_key(d) implies self@[d]
                        == o@.insert(c, s_view)[d] by {
                        let j = choose|j: int|
                            0 <= j < self.entries@.len() && self.entries@[j].0 == d;
                        self.lemma_at(j);
                        if j != n {
                            o.lemma_at(j);
                        }
                    }
                    assert(self@ =~= o@.insert(c, s_view));
                }
            },
        }
    }

    /// The reverse table: each replacement string mapped back to its
    /// character. Where two characters share a replacement, one of them keeps
    /// it.
    pub fn reverse(&self) -> (r: ReverseMap)
        requires
            self.wf(),
        ensures
            r.wf(),
            is_reverse(r@, self@),
    {
        let mut r = ReverseMap { entries: Vec::new() };
        let mut i: usize = 0;
        while i < self.entries.len()
            invariant
                i <= self.entries@.len(),
                self.wf(),
                r.wf(),
                forall|j: int|
                    0 <= j < r.entries@.len() ==> exists|k: int|
                        0 <= k < i && self.entries@[k].0 == #[trigger] r.entries@[j].1
                            && self.entries@[k].1@ == r.entries@[j].0@,
                forall|k: int|
                    0 <= k < i ==> exists|j: int|
                        0 <= j < r.entries@.len() && #[trigger] r.entries@[j].0@
                            == #[trigger] self.entries@[k].1@,
            decreases self.entries.len() - i,
        {
            let c = self.entries[i].0;
            let present = r.get(&self.entries[i].1);
            match present {
                Some(_) => {
                    proof {
                        let v = self.entries@[i as int].1@;
                        let j = choose|j: int| 0 <= j < r.entries@.len() && r.entries@[j].0@ == v;
                        assert(r.entries@[j].0@ == self.entries@[i as int].1@);
                    }
                },
                None => {
                    let v = self.entries[i].1.clone();
                    let ghost old_r = r;
                    r.entries.push((v, c));
                    proof {
                        let n = old_r.entries@.len() as int;
                        assert forall|j: int| 0 <= j < n implies r.entries@[j] == old_r.entries@[j] by {}
                        assert forall|a: int, b: int|
                            0 <= a < b < r.entries@.len() implies #[trigger] r.entries@[a].0@
                            != #[trigger] r.entries@[b].0@ by {
                            if b == n {
                                assert(old_r.entries@[a].0@ != self.entries@[i as int].1@);
                            }
                        }
                        assert(r.entries@[n].0@ == self.entries@[i as int].1@);
                        assert forall|j: int| 0 <= j < r.entries@.len() implies exists|k: int|
                            0 <= k < i + 1 && self.entries@[k].0 == #[trigger] r.entries@[j].1
                                && self.entries@[k].1@ == r.entries@[j].0@ by {
                            if j == n {
                                assert(self.entries@[i as int].0 == r.entries@[j].1);
                            } else {
                                assert(r.entries@[j] == old_r.entries@[j]);
                            }
                        }
                        assert forall|k: int| 0 <= k < i + 1 implies exists|j: int|
                            0 <= j < r.entries@.len() && #[trigger] r.entries@[j].0@
                                == #[trigger] self.entries@[k].1@ by {
                            if k < i {
                                let j = choose|j: int|
                                    0 <= j < old_r.entries@.len() && old_r.entries@[j].0@
                                        == self.entries@[k].1@;
                                assert(r.entries@[j] == old_r.entries@[j]);
                            } else {
                                assert(r.entries@[n].0@ == self.entries@[k].1@);
                            }
                        }
                    }
                },
            }
            i = i + 1;
        }
        proof {
            assert forall|v: Seq<char>| #[trigger] r@.contains_key(v) implies self@.contains_key(
                r@[v],
            ) && self@[r@[v]] == v by {
                let j = choose|j: int| 0 <= j < r.entries@.len() && r.entries@[j].0@ == v;
                r.lemma_at(j);
                let k = choose|k: int|
                    0 <= k < i && self.entries@[k].0 == r.entries@[j].1 && self.entries@[k].1@
                        == r.entries@[j].0@;
                self.lemma_at(k);
            }
            assert forall|c: char| #[trigger] self@.contains_key(c) implies r@.contains_key(
                self@[c],
            ) by {
                let k = choose|k: int| 0 <= k < self.entries@.len() && self.entries@[k].0 == c;
                self.lemma_at(k);
                let j = choose|j: int|
                    0 <= j < r.entries@.len() && r.entries@[j].0@ == self.entries@[k].1@;
                assert(r.entries@[j].0@ == self@[c]);
            }
        }
        r
    }
}

/// Replaces every character of `cell` that the map holds by its replacement;
/// the others are kept as they are.
pub fn encode_cell(cell: &str, map: &LangMap) -> (r: String)
    requires
        map.wf(),
    ensures
        r@ == encode_spec(cell@, map@),
{
    let cs = chars_of(cell);
    let mut out = String::new();
    let mut i: usize = 0;
    while i < cs.len()
        invariant
            i <= cs@.len(),
            map.wf(),
            out@ == encode_spec(cs@.take(i as int), map@),
        decreases cs.len() - i,
    {
        let c = cs[i];
        match map.get(c) {
            Some(rep) => push_str(&mut out, rep.as_str()),
            None => push_char(&mut out, c),
        }
        assert(cs@.take(i + 1).drop_last() =~= cs@.take(i as int));
        i = i + 1;
        assert(out@ =~= encode_spec(cs@.take(i as int), map@));
    }
    assert(cs@.take(cs@.len() as int) =~= cs@);
    out
}

/// Reads `cell` left to right into a buffer; whenever the buffer equals a key
/// of the reverse table, emits that key's character and empties the buffer.
/// Whatever is left in the buffer at the end is dropped.
pub fn decode_cell(cell: &str, reverse_map: &ReverseMap) -> (r: String)
    requires
        reverse_map.wf(),
    ensures
        r@ == decode_spec(cell@, reverse_map@),
{
    let cs = chars_of(cell);
    let mut buffer = String::new();
    let mut out = String::new();
    let mut i: usize = 0;
    assert(cs@.skip(0) =~= cs@);
    while i < cs.len()
        invariant
            i <= cs@.len(),
            reverse_map.wf(),
            scan(Seq::empty(), Seq::empty(), cs@, reverse_map@) == scan(
                buffer@,
                out@,
                cs@.skip(i as int),
                reverse_map@,
            ),
        decreases cs.len() - i,
    {
        assert(cs@.skip(i as int).drop_first() =~= cs@.skip(i + 1));
        assert(cs@.skip(i as int)[0] == cs@[i as int]);
        push_char(&mut buffer, cs[i]);
        match reverse_map.get(&buffer) {
            Some(c) => {
                push_char(&mut out, c);
                buffer = String::new();
            },
            None => {},
        }
        i = i + 1;
    }
    assert(cs@.skip(i as int) =~= Seq::<char>::empty());
    out
}

/// The table that a list of (key, replacement) pairs describes: each key
/// stands for its first character, and a later pair for the same character
/// replaces an earlier one.
pub open spec fn pairs_map(pairs: Seq<(String, String)>) -> Map<char, Seq<char>>
    decreases pairs.len(),
{
    if pairs.len() == 0 {
        Map::empty()
    } else {
        pairs_map(pairs.drop_last()).insert(pairs.last().0@[0], pairs.last().1@)
    }
}

/// Builds the substitution table from (key, replacement) pairs as they are
/// read from a lang file; each key is a non-empty string whose first
/// character is the one replaced.
pub fn load_lang_map(pairs: &Vec<(String, String)>) -> (r: LangMap)
    requires
        forall|i: int| 0 <= i < pairs@.len() ==> (#[trigger] pairs@[i]).0@.len() > 0,
    ensures
        r.wf(),
        r@ == pairs_map(pairs@),
{
    let mut map = LangMap::new();
    let mut i: usize = 0;
    while i < pairs.len()
        invariant
            i <= pairs@.len(),
            forall|k: int| 0 <= k < pairs@.len() ==> (#[trigger] pairs@[k]).0@.len() > 0,
            map.wf(),
            map@ == pairs_map(pairs@.take(i as int)),
        decreases pairs.len() - i,
    {
        let key = chars_of(pairs[i].0.as_str());
        assert(pairs@[i as int].0@.len() > 0);
        map.insert(key[0], pairs[i].1.clone());
        assert(pairs@.take(i + 1).drop_last() =~= pairs@.take(i as int));
        i = i + 1;
    }
    assert(pairs@.take(pairs@.len() as int) =~= pairs@);
    map
}

proof fn lemma_scan_concat(
    buf: Seq<char>,
    out: Seq<char>,
    x: Seq<char>,
    y: Seq<char>,
    rm: Map<Seq<char>, char>,
)
    ensures
        scan(buf, out, x + y, rm) == scan(scan(buf, out, x, rm).0, scan(buf, out, x, rm).1, y, rm),
    decreases x.len(),
{
    if x.len() == 0 {
        assert(x + y =~= y);
    } else {
        assert((x + y).drop_first() =~= x.drop_first() + y);
        assert((x + y)[0] == x[0]);
        let b = buf.push(x[0]);
        if rm.contains_key(b) {
            lemma_scan_concat(Seq::empty(), out.push(rm[b]), x.drop_first(), y, rm);
        } else {
            lemma_scan_concat(b, out, x.drop_first(), y, rm);
        }
    }
}

proof fn lemma_scan_one(buf: Seq<char>, out: Seq<char>, x: char, rm: Map<Seq<char>, char>)
    ensures
        scan(buf, out, seq![x], rm) == (if rm.contains_key(buf.push(x)) {
            (Seq::<char>::empty(), out.push(rm[buf.push(x)]))
        } else {
            (buf.push(x), out)
        }),
{
    assert(seq![x].drop_first() =~= Seq::<char>::empty());
    let b = buf.push(x);
    if rm.contains_key(b) {
        assert(scan(Seq::empty(), out.push(rm[b]), Seq::<char>::empty(), rm) == (
            Seq::<char>::empty(),
            out.push(rm[b]),
        ));
    } else {
        assert(scan(b, out, Seq::<char>::empty(), rm) == (b, out));
    }
}

proof fn lemma_scan_prefix(
    out: Seq<char>,
    c: char,
    m: Map<char, Seq<char>>,
    rm: Map<Seq<char>, char>,
    k: int,
)
    requires
        prefix_free(m),
        is_reverse(rm, m),
        m.contains_key(c),
        1 <= k <= m[c].len(),
    ensures
        scan(Seq::empty(), out, m[c].take(k), rm) == (if k < m[c].len() {
            (m[c].take(k), out)
        } else {
            (Seq::<char>::empty(), out.push(c))
        }),
    decreases k,
{
    let w = m[c];
    let x = w[k - 1];
    if k == 1 {
        assert(w.take(1) =~= seq![x]);
        lemma_scan_one(Seq::empty(), out, x, rm);
        assert(Seq::<char>::empty().push(x) =~= w.take(1));
    } else {
        lemma_scan_prefix(out, c, m, rm, k - 1);
        assert(w.take(k) =~= w.take(k - 1) + seq![x]);
        lemma_scan_concat(Seq::empty(), out, w.take(k - 1), seq![x], rm);
        lemma_scan_one(w.take(k - 1), out, x, rm);
        assert(w.take(k - 1).push(x) =~= w.take(k));
    }
    let b = w.take(k);
    if k < w.len() {
        if rm.contains_key(b) {
            let d = rm[b];
            assert(m[d] == b);
            assert(d != c);
            assert(w.subrange(0, b.len() as int) =~= b);
            assert(is_prefix(m[d], m[c]));
        }
    } else {
        assert(b =~= w);
        let d = rm[w];
        if d != c {
            assert(w.subrange(0, w.len() as int) =~= w);
            assert(is_prefix(m[d], m[c]));
        }
    }
}

/// Under a prefix-free map and a reverse table of it, decoding the encoding of
/// a string made of mapped characters gives the string back.
pub proof fn lemma_round_trip(s: Seq<char>, m: Map<char, Seq<char>>, rm: Map<Seq<char>, char>)
    requires
        prefix_free(m),
        is_reverse(rm, m),
        forall|i: int| 0 <= i < s.len() ==> m.contains_key(#[trigger] s[i]),
    ensures
        decode_spec(encode_spec(s, m), rm) == s,
{
    lemma_scan_encoded(s, m, rm);
}

proof fn lemma_scan_encoded(s: Seq<char>, m: Map<char, Seq<char>>, rm: Map<Seq<char>, char>)
    requires
        prefix_free(m),
        is_reverse(rm, m),
        forall|i: int| 0 <= i < s.len() ==> m.contains_key(#[trigger] s[i]),
    ensures
        scan(Seq::empty(), Seq::empty(), encode_spec(s, m), rm) == (Seq::<char>::empty(), s),
    decreases s.len(),
{
    if s.len() == 0 {
        assert(s =~= Seq::<char>::empty());
    } else {
        let dl = s.drop_last();
        let c = s.last();
        assert(m.contains_key(s[s.len() - 1]));
        assert forall|i: int| 0 <= i < dl.len() implies m.contains_key(#[trigger] dl[i]) by {
            assert(dl[i] == s[i]);
        }
        lemma_scan_encoded(dl, m, rm);
        lemma_scan_concat(Seq::empty(), Seq::empty(), encode_spec(dl, m), m[c], rm);
        lemma_scan_prefix(dl, c, m, rm, m[c].len() as int);
        assert(m[c].take(m[c].len() as int) =~= m[c]);
        assert(dl.push(c) =~= s);
    }
}

/// A string none of whose characters the map holds is left unchanged by
/// encoding.
pub proof fn lemma_encode_passthrough(s: Seq<char>, m: Map<char, Seq<char>>)
    requires
        forall|i: int| 0 <= i < s.len() ==> !m.contains_key(#[trigger] s[i]),
    ensures
        encode_spec(s, m) == s,
    decreases s.len(),
{
    if s.len() > 0 {
        let dl = s.drop_last();
        assert(!m.contains_key(s[s.len() - 1]));
        assert forall|i: int| 0 <= i < dl.len() implies !m.contains_key(#[trigger] dl[i]) by {
            assert(dl[i] == s[i]);
        }
        lemma_encode_passthrough(dl, m);
        assert(dl + seq![s.last()] =~= s);
    } else {
        assert(s =~= Seq::<char>::empty());
    }
}

/// The table that maps replacement strings back to characters, each string
/// listed at most once.
pub struct ReverseMap {
    pub entries: Vec<(String, char)>,
}

impl View for ReverseMap {
    type V = Map<Seq<char>, char>;

    open spec fn view(&self) -> Map<Seq<char>, char> {
        Map::new(
            |v: Seq<char>| exists|i: int| 0 <= i < self.entries@.len() && self.entries@[i].0@ == v,
            |v: Seq<char>|
                self.entries@[choose|i: int|
                    0 <= i < self.entries@.len() && self.entries@[i].0@ == v].1,
        )
    }
}

impl ReverseMap {
    pub open spec fn wf(&self) -> bool {
        forall|i: int, j: int|
            0 <= i < j < self.entries@.len() ==> #[trigger] self.entries@[i].0@
                != #[trigger] self.entries@[j].0@
    }

    proof fn lemma_at(&self, i: int)
        requires
            self.wf(),
            0 <= i < self.entries@.len(),
        ensures
            self@.contains_key(self.entries@[i].0@),
            self@[self.entries@[i].0@] == self.entries@[i].1,
    {
        let v = self.entries@[i].0@;
        let j = choose|j: int| 0 <= j < self.entries@.len() && self.entries@[j].0@ == v;
        assert(i == j) by {
            if i < j {
                assert(self.entries@[i].0@ != self.entries@[j].0@);
            } else if j < i {
                assert(self.entries@[j].0@ != self.entries@[i].0@);
            }
        }
    }

    /// The character that `key` stands for, if any.
    pub fn get(&self, key: &String) -> (r: Option<char>)
        requires
            self.wf(),
        ensures
            match r {
                Some(c) => self@.contains_key(key@) && self@[key@] == c,
                None => !self@.contains_key(key@),
            },
    {
        let mut i: usize = 0;
        while i < self.entries.len()
            invariant
                i <= self.entries@.len(),
                self.wf(),
                forall|k: int| 0 <= k < i ==> self.entries@[k].0@ != key@,
            decreases self.entries.len() - i,
        {
            if self.entries[i].0 == *key {
                proof {
                    self.lemma_at(i as int);
                }
                return Some(self.entries[i].1);
            }
            i = i + 1;
        }
        None
    }
}

} // verus!
