use vstd::prelude::*;
use vstd::string::*;
use vstd::utf8::*;
use vstd::multiset::Multiset;

verus! {

/// Longest text, in bytes, that the ranking takes as a path or a query: with
/// it every score fits the fixed-width rational that holds it.
pub const MAX_TEXT: usize = 1073741824;

/// A byte after which a match starts without penalty.
pub open spec fn is_boundary(b: u8) -> bool {
    b == 47 || b == 95 || b == 45 || b == 46 || b == 32
}

pub open spec fn is_upper(b: u8) -> bool {
    65 <= b <= 90
}

pub open spec fn to_lower(b: u8) -> u8 {
    if is_upper(b) {
        (b + 32) as u8
    } else {
        b
    }
}

/// Whether a haystack byte matches a token byte, case-insensitively under
/// smart case.
pub open spec fn bytes_match(h: u8, t: u8, smart_case: bool) -> bool {
    if smart_case {
        to_lower(h) == to_lower(t)
    } else {
        h == t
    }
}

/// The first index at or after `from` whose byte matches `t`.
pub open spec fn first_match(s: Seq<u8>, from: int, t: u8, smart_case: bool) -> Option<int>
    decreases s.len() - from,
{
    if from < 0 || from >= s.len() {
        None
    } else if bytes_match(s[from], t, smart_case) {
        Some(from)
    } else {
        first_match(s, from + 1, t, smart_case)
    }
}

/// Penalty for a match that lands in the middle of a word.
pub open spec fn start_penalty(s: Seq<u8>, i: int) -> int {
    if i > 0 && !is_boundary(s[i - 1]) {
        2
    } else {
        0
    }
}

/// Cost of greedily aligning `token[i..]` after position `last`, with the end
/// position of the alignment; `run` tells whether `last` extended a run.
pub open spec fn align(s: Seq<u8>, token: Seq<u8>, i: int, last: int, run: bool, smart_case: bool) -> Option<(int, int)>
    decreases token.len() - i,
{
    if i < 0 || i >= token.len() {
        Some((0, last))
    } else {
        match first_match(s, last + 1, token[i], smart_case) {
            None => None,
            Some(idx) => {
                let step = idx == last + 1;
                let cost = if step {
                    if run { 0 } else { 1 }
                } else {
                    start_penalty(s, idx) + (idx - last)
                };
                match align(s, token, i + 1, idx, step, smart_case) {
                    None => None,
                    Some(rest) => Some((cost + rest.0, rest.1)),
                }
            },
        }
    }
}

/// Score and end position of the alignment of `token` whose first byte sits at `start`.
pub open spec fn alignment(s: Seq<u8>, token: Seq<u8>, start: int, smart_case: bool) -> Option<(int, int)> {
    match align(s, token, 1, start, false, smart_case) {
        None => None,
        Some(a) => Some((1 + start_penalty(s, start) + a.0, a.1)),
    }
}

/// The better of two (score, start, end) results; the first wins a tie.
pub open spec fn better(a: Option<(int, int, int)>, b: Option<(int, int, int)>) -> Option<(int, int, int)> {
    match a {
        None => b,
        Some(x) => match b {
            None => a,
            Some(y) => if y.0 < x.0 { b } else { a },
        },
    }
}

/// Best alignment over the occurrences of the token's first byte at or after
/// `from`, stopping at the first occurrence whose alignment fails.
pub open spec fn best_from(s: Seq<u8>, token: Seq<u8>, from: int, smart_case: bool) -> Option<(int, int, int)>
    decreases s.len() - from,
{
    if from < 0 || from >= s.len() || token.len() == 0 {
        None
    } else if !bytes_match(s[from], token[0], smart_case) {
        best_from(s, token, from + 1, smart_case)
    } else {
        match alignment(s, token, from, smart_case) {
            None => None,
            Some(m) => better(Some((m.0, from, m.1)), best_from(s, token, from + 1, smart_case)),
        }
    }
}

#[inline]
fn lower(b: u8) -> (r: u8)
    ensures
        r == to_lower(b),
{
    if 65 <= b && b <= 90 {
        b + 32
    } else {
        b
    }
}

#[inline]
fn byte_eq(h: u8, t: u8, smart_case: bool) -> (r: bool)
    ensures
        r == bytes_match(h, t, smart_case),
{
    if smart_case {
        lower(h) == lower(t)
    } else {
        h == t
    }
}

#[inline]
pub fn is_start_of_word(byte: u8) -> (r: bool)
    ensures
        r == is_boundary(byte),
{
    byte == 47 || byte == 95 || byte == 45 || byte == 46 || byte == 32
}

/// Index of the first byte at or after `start_index` that matches `value`
/// case-insensitively.
fn index_of(slice: &[u8], start_index: usize, value: u8) -> (r: Option<usize>)
    ensures
        match r {
            Some(i) => first_match(slice@, start_index as int, value, true) == Some(i as int),
            None => first_match(slice@, start_index as int, value, true) is None,
        },
        r matches Some(i) ==> start_index <= i < slice@.len(),
{
    position_from(slice, start_index, value, true)
}

/// Index of the first byte at or after `start_index` equal to `value`.
fn index_of_case_sensitive(slice: &[u8], start_index: usize, value: u8) -> (r: Option<usize>)
    ensures
        match r {
            Some(i) => first_match(slice@, start_index as int, value, false) == Some(i as int),
            None => first_match(slice@, start_index as int, value, false) is None,
        },
        r matches Some(i) ==> start_index <= i < slice@.len(),
{
    position_from(slice, start_index, value, false)
}

fn position_from(slice: &[u8], start_index: usize, value: u8, smart_case: bool) -> (r: Option<usize>)
    ensures
        match r {
            Some(i) => first_match(slice@, start_index as int, value, smart_case) == Some(i as int),
            None => first_match(slice@, start_index as int, value, smart_case) is None,
        },
        r matches Some(i) ==> start_index <= i < slice@.len(),
{
    let mut i: usize = start_index;
    while i < slice.len()
        invariant
            start_index <= i,
            first_match(slice@, start_index as int, value, smart_case) == first_match(slice@, i as int, value, smart_case),
        decreases slice.len() - i,
    {
        if byte_eq(slice[i], value, smart_case) {
            return Some(i);
        }
        i = i + 1;
    }
    None
}


/// An alignment result with the score and the end position added to it.
pub open spec fn shifted(o: Option<(int, int)>, d: int) -> Option<(int, int)> {
    match o {
        None => None,
        Some(p) => Some((p.0 + d, p.1)),
    }
}

struct Match {
    rank: u64,
    start: usize,
    end: usize,
}

/// Greedy left-to-right alignment of `token[1..]` after `token[0]` matched at
/// `start_index`: the core of the scoring.
fn scan_to_end(name: &[u8], token: &[u8], start_index: usize, smart_case: bool) -> (r: Option<Match>)
    requires
        name@.len() <= MAX_TEXT,
        token@.len() <= MAX_TEXT,
        token@.len() >= 1,
        start_index < name@.len(),
    ensures
        match r {
            Some(m) => {
                &&& alignment(name@, token@, start_index as int, smart_case) == Some((m.rank as int, m.end as int))
                &&& m.start == start_index
                &&& start_index + token@.len() - 1 <= m.end < name@.len()
                &&& m.rank <= 3 + name@.len() + 2 * token@.len()
            },
            None => alignment(name@, token@, start_index as int, smart_case) is None,
        },
{
    let mut rank: u64 = 1;
    if start_index > 0 && !is_start_of_word(name[start_index - 1]) {
        rank = rank + 2;
    }
    let ghost base: int = rank as int;
    let mut last_index: usize = start_index;
    let mut last_sequential = false;
    let mut i: usize = 1;
    while i < token.len()
        invariant
            1 <= i <= token@.len(),
            token@.len() <= MAX_TEXT,
            name@.len() <= MAX_TEXT,
            base == 1 + start_penalty(name@, start_index as int),
            start_index + i - 1 <= last_index < name@.len(),
            base <= rank <= 3 + (last_index - start_index) + 2 * (i - 1),
            align(name@, token@, 1, start_index as int, false, smart_case)
                == shifted(align(name@, token@, i as int, last_index as int, last_sequential, smart_case), rank - base),
        decreases token@.len() - i,
    {
        let chr = token[i];
        let found = if smart_case {
            index_of(name, last_index + 1, chr)
        } else {
            index_of_case_sensitive(name, last_index + 1, chr)
        };
        match found {
            Some(index) => {
                if index == last_index + 1 {
                    if !last_sequential {
                        last_sequential = true;
                        rank = rank + 1;
                    }
                } else {
                    if !is_start_of_word(name[index - 1]) {
                        rank = rank + 2;
                    }
                    last_sequential = false;
                    rank = rank + (index - last_index) as u64;
                }
                last_index = index;
            },
            None => {
                return None;
            },
        }
        i = i + 1;
    }
    Some(Match { rank, start: start_index, end: last_index })
}


/// Walks the positions in `str` of the bytes that match `chr`.
pub struct IndexIterator<'a> {
    str: &'a [u8],
    chr: u8,
    index: usize,
    smart_case: bool,
}

impl<'a> IndexIterator<'a> {
    pub closed spec fn text(&self) -> Seq<u8> {
        self.str@
    }

    pub closed spec fn target(&self) -> u8 {
        self.chr
    }

    /// Where the next search starts.
    pub closed spec fn position(&self) -> int {
        self.index as int
    }

    pub closed spec fn ignores_case(&self) -> bool {
        self.smart_case
    }

    pub fn new(str: &'a [u8], chr: u8, smart_case: bool) -> (r: Self)
        ensures
            r.text() == str@,
            r.target() == chr,
            r.position() == 0,
            r.ignores_case() == smart_case,
    {
        Self { str, chr, index: 0, smart_case }
    }

    /// The next matching position, from which the following search goes on.
    pub fn next_index(&mut self) -> (r: Option<usize>)
        ensures
            final(self).text() == old(self).text(),
            final(self).target() == old(self).target(),
            final(self).ignores_case() == old(self).ignores_case(),
            match r {
                Some(i) => {
                    &&& first_match(old(self).text(), old(self).position(), old(self).target(), old(self).ignores_case()) == Some(i as int)
                    &&& final(self).position() == i + 1
                    &&& old(self).position() <= i < old(self).text().len()
                },
                None => {
                    &&& first_match(old(self).text(), old(self).position(), old(self).target(), old(self).ignores_case()) is None
                    &&& final(self).position() == old(self).position()
                },
            },
    {
        let len = self.str.len();
        let out = if self.smart_case {
            index_of(self.str, self.index, self.chr)
        } else {
            index_of_case_sensitive(self.str, self.index, self.chr)
        };
        if let Some(i) = out {
            assert(i < len);
            self.index = i + 1;
        }
        out
    }
}

pub open spec fn match_view(o: Option<(u64, usize, usize)>) -> Option<(int, int, int)> {
    match o {
        None => None,
        Some(m) => Some((m.0 as int, m.1 as int, m.2 as int)),
    }
}

proof fn lemma_first_match(s: Seq<u8>, from: int, t: u8, smart_case: bool)
    requires
        0 <= from,
    ensures
        first_match(s, from, t, smart_case) matches Some(k) ==> from <= k < s.len() && bytes_match(s[k], t, smart_case),
    decreases s.len() - from,
{
    if from < s.len() && !bytes_match(s[from], t, smart_case) {
        lemma_first_match(s, from + 1, t, smart_case);
    }
}

/// The best alignment from `from` on is the one from the next occurrence of
/// the token's first byte.
proof fn lemma_best_from_skip(s: Seq<u8>, token: Seq<u8>, from: int, smart_case: bool)
    requires
        0 <= from,
        token.len() > 0,
    ensures
        best_from(s, token, from, smart_case) == match first_match(s, from, token[0], smart_case) {
            None => None,
            Some(k) => best_from(s, token, k, smart_case),
        },
    decreases s.len() - from,
{
    if from < s.len() && !bytes_match(s[from], token[0], smart_case) {
        lemma_best_from_skip(s, token, from + 1, smart_case);
    }
}

/// Best alignment of `token` over the occurrences of its first byte in `s`.
fn best_match(s: &[u8], token: &[u8], smart_case: bool) -> (r: Option<(u64, usize, usize)>)
    requires
        s@.len() <= MAX_TEXT,
        token@.len() <= MAX_TEXT,
        token@.len() >= 1,
    ensures
        match_view(r) == best_from(s@, token@, 0, smart_case),
        r matches Some(m) ==> m.1 + token@.len() - 1 <= m.2 < s@.len() && m.0 <= 3 + s@.len() + 2 * token@.len(),
{
    let mut best: Option<(u64, usize, usize)> = None;
    let mut occurrences = IndexIterator::new(s, token[0], smart_case);
    loop
        invariant
            s@.len() <= MAX_TEXT,
            token@.len() <= MAX_TEXT,
            token@.len() >= 1,
            occurrences.text() == s@,
            occurrences.target() == token@[0],
            occurrences.ignores_case() == smart_case,
            0 <= occurrences.position() <= s@.len(),
            better(match_view(best), best_from(s@, token@, occurrences.position(), smart_case)) == best_from(s@, token@, 0, smart_case),
            best matches Some(m) ==> m.1 + token@.len() - 1 <= m.2 < s@.len() && m.0 <= 3 + s@.len() + 2 * token@.len(),
        decreases s@.len() - occurrences.position(),
    {
        let ghost from = occurrences.position();
        proof {
            lemma_best_from_skip(s@, token@, from, smart_case);
            lemma_first_match(s@, from, token@[0], smart_case);
        }
        match occurrences.next_index() {
            None => {
                return best;
            },
            Some(k) => {
                match scan_to_end(s, token, k, smart_case) {
                    None => {
                        return best;
                    },
                    Some(m) => {
                        let replace = match best {
                            None => true,
                            Some(b) => m.rank < b.0,
                        };
                        if replace {
                            best = Some((m.rank, k, m.end));
                        }
                    },
                }
            },
        }
    }
}

/// Scaled score of one token and the (start, last) byte positions of its
/// match in the path. Scores are in units of `1 / scale(name)`: a filename
/// match is halved, then halved again when the token is as long as the name,
/// else multiplied by the share of the name the token leaves uncovered.
pub open spec fn token_rank(path: Seq<u8>, name: Option<Seq<u8>>, token: Seq<u8>, smart_case: bool) -> Option<(int, int, int)> {
    let named = match name {
        Some(n) => best_from(n, token, 0, smart_case),
        None => None,
    };
    match named {
        Some(m) => {
            let n = name.unwrap();
            let off = path.len() - n.len();
            let score = if token.len() == n.len() {
                m.0 * n.len()
            } else {
                2 * m.0 * (n.len() - token.len())
            };
            Some((score, m.1 + off, m.2 + off))
        },
        None => match best_from(path, token, 0, smart_case) {
            Some(m) => Some((m.0 * scale(name), m.1, m.2)),
            None => None,
        },
    }
}

/// Denominator of a candidate's score: four times the length of its name.
pub open spec fn scale(name: Option<Seq<u8>>) -> int {
    match name {
        Some(n) => if n.len() > 0 { 4 * n.len() as int } else { 4 },
        None => 4,
    }
}

pub open spec fn opt_bytes(name: Option<&[u8]>) -> Option<Seq<u8>> {
    match name {
        Some(n) => Some(n@),
        None => None,
    }
}

/// Scores one token against a path and its optional filename.
fn rank_token(path: &[u8], name: Option<&[u8]>, token: &[u8], smart_case: bool) -> (r: Option<(u128, Range)>)
    requires
        path@.len() <= MAX_TEXT,
        token@.len() <= MAX_TEXT,
        name matches Some(n) ==> n@.len() <= path@.len(),
    ensures
        match r {
            Some(x) => {
                &&& token_rank(path@, opt_bytes(name), token@, smart_case) == Some((x.0 as int, x.1.start as int, x.1.end as int))
                &&& x.0 < 0x1_0000_0000_0000_0000
                &&& x.1.start <= x.1.end < path@.len()
            },
            None => token_rank(path@, opt_bytes(name), token@, smart_case) is None,
        },
{
    if token.len() == 0 {
        proof {
            if let Some(n) = name {
                assert(best_from(n@, token@, 0, smart_case) is None);
            }
            assert(best_from(path@, token@, 0, smart_case) is None);
        }
        return None;
    }
    let scale_exec: u128 = match name {
        Some(n) => if n.len() > 0 { 4 * n.len() as u128 } else { 4 },
        None => 4,
    };
    if let Some(n) = name {
        if let Some(m) = best_match(n, token, smart_case) {
            let off = path.len() - n.len();
            let r = m.0 as u128;
            let nl = n.len() as u128;
            let tl = token.len() as u128;
            assert(r * nl <= 0x1_0000_0000 * 0x4000_0000) by (nonlinear_arith)
                requires r <= 0x1_0000_0000, nl <= 0x4000_0000;
            assert(tl <= nl);
            let score = if tl == nl {
                r * nl
            } else {
                let d = nl - tl;
                assert(2 * r * d <= 2 * 0x1_0000_0000 * 0x4000_0000) by (nonlinear_arith)
                    requires r <= 0x1_0000_0000, d <= 0x4000_0000;
                2 * r * d
            };
            return Some((score, Range { start: m.1 + off, end: m.2 + off }));
        }
    }
    match best_match(path, token, smart_case) {
        Some(m) => {
            let r = m.0 as u128;
            assert(scale_exec == scale(opt_bytes(name)));
            assert(r * scale_exec < 0x1_0000_0000 * 0x1_0000_0000) by (nonlinear_arith)
                requires r < 0x1_0000_0000, 0 < scale_exec <= 0x1_0000_0000;
            Some((r * scale_exec, Range { start: m.1, end: m.2 }))
        },
        None => None,
    }
}

/// A byte span of a candidate's path; `end` is the position of the last
/// matched byte.
#[derive(Debug, Clone, Copy, PartialEq, Eq, Structural, Default)]
pub struct Range {
    pub start: usize,
    pub end: usize,
}


/// Segments of `s[start..]` split on `d`, the current one starting at `start`
/// and scanned up to `i`.
pub open spec fn split_acc(s: Seq<u8>, d: u8, start: int, i: int) -> Seq<Seq<u8>>
    decreases s.len() - i,
{
    if !(0 <= start <= i) {
        seq![]
    } else if i >= s.len() {
        seq![s.subrange(start, s.len() as int)]
    } else if s[i] == d {
        seq![s.subrange(start, i)] + split_acc(s, d, i + 1, i + 1)
    } else {
        split_acc(s, d, start, i + 1)
    }
}

/// The segments of `s` between occurrences of `d`, empty ones included.
pub open spec fn split_bytes(s: Seq<u8>, d: u8) -> Seq<Seq<u8>> {
    split_acc(s, d, 0, 0)
}

/// The tokens of a query: its bytes split on single spaces.
pub open spec fn query_tokens(q: Seq<u8>) -> Seq<Seq<u8>> {
    split_bytes(q, 32)
}

pub open spec fn has_upper_bytes(q: Seq<u8>) -> bool {
    exists|i: int| 0 <= i < q.len() && is_upper(#[trigger] q[i])
}

/// Smart case: matching ignores case unless the query holds an uppercase letter.
pub open spec fn smart_case_of(q: Seq<u8>) -> bool {
    !has_upper_bytes(q)
}

pub open spec fn str_bytes(t: &str) -> Seq<u8> {
    t.spec_bytes()
}

pub open spec fn all_bytes(v: Seq<&str>) -> Seq<Seq<u8>> {
    v.map_values(|t: &str| str_bytes(t))
}

proof fn lemma_split_skip(s: Seq<u8>, d: u8, start: int, i: int, j: int)
    requires
        0 <= start <= i <= j <= s.len(),
        forall|k: int| i <= k < j ==> s[k] != d,
    ensures
        split_acc(s, d, start, i) == split_acc(s, d, start, j),
    decreases j - i,
{
    if i < j {
        lemma_split_skip(s, d, start, i + 1, j);
    }
}

proof fn lemma_split_len(s: Seq<u8>, d: u8, start: int, i: int)
    requires
        0 <= start <= i <= s.len(),
    ensures
        split_acc(s, d, start, i).len() <= s.len() - i + 1,
        forall|k: int| 0 <= k < split_acc(s, d, start, i).len() ==> (#[trigger] split_acc(s, d, start, i)[k]).len() <= s.len(),
    decreases s.len() - i,
{
    if i < s.len() {
        if s[i] == d {
            lemma_split_len(s, d, i + 1, i + 1);
        } else {
            lemma_split_len(s, d, start, i + 1);
        }
    }
}

/// Whether the query holds an ASCII uppercase letter.
#[inline]
fn has_upper(query: &str) -> (r: bool)
    ensures
        r == has_upper_bytes(str_bytes(query)),
{
    let bytes = query.as_bytes();
    let mut i: usize = 0;
    while i < bytes.len()
        invariant
            bytes@ == str_bytes(query),
            i <= bytes@.len(),
            forall|k: int| 0 <= k < i ==> !is_upper(#[trigger] bytes@[k]),
        decreases bytes@.len() - i,
    {
        if 65 <= bytes[i] && bytes[i] <= 90 {
            return true;
        }
        i = i + 1;
    }
    false
}

/// Splits a query on single spaces; consecutive spaces give empty tokens.
pub fn split_query(query: &str) -> (r: Vec<&str>)
    ensures
        all_bytes(r@) == query_tokens(str_bytes(query)),
        r@.len() <= str_bytes(query).len() + 1,
        forall|k: int| 0 <= k < r@.len() ==> str_bytes(#[trigger] r@[k]).len() <= str_bytes(query).len(),
{
    let ghost q = str_bytes(query);
    let mut out: Vec<&str> = Vec::new();
    let mut rest: &str = query;
    let ghost mut start: int = 0;
    proof {
        lemma_split_len(q, 32, 0, 0);
    }
    loop
        invariant
            q == str_bytes(query),
            0 <= start <= q.len(),
            str_bytes(rest) == q.subrange(start, q.len() as int),
            query_tokens(q) == all_bytes(out@) + split_acc(q, 32, start, start),
            out@.len() <= start,
            forall|j: int| 0 <= j < out@.len() ==> str_bytes(#[trigger] out@[j]).len() <= q.len(),
        decreases q.len() - start,
    {
        let bytes = rest.as_bytes();
        let mut k: usize = 0;
        while k < bytes.len() && bytes[k] != 32
            invariant
                bytes@ == str_bytes(rest),
                k <= bytes@.len(),
                forall|j: int| 0 <= j < k ==> bytes@[j] != 32,
            decreases bytes@.len() - k,
        {
            k = k + 1;
        }
        proof {
            encode_utf8_valid_utf8(rest@);
            is_char_boundary_start_end_of_seq(bytes@);
            assert forall|j: int| start <= j < start + k implies q[j] != 32 by {
                assert(q[j] == bytes@[j - start]);
            }
            lemma_split_skip(q, 32, start, start, start + k);
        }
        if k == bytes.len() {
            proof {
                assert(q.subrange(start, q.len() as int) =~= bytes@);
            }
            let ghost prev = out@;
            out.push(rest);
            proof {
                lemma_split_len(q, 32, start, start);
                assert(all_bytes(out@) =~= all_bytes(prev).push(str_bytes(rest)));
                assert(split_acc(q, 32, start, q.len() as int) == seq![q.subrange(start, q.len() as int)]);
                assert(all_bytes(prev) + seq![q.subrange(start, q.len() as int)]
                    =~= all_bytes(prev).push(str_bytes(rest)));
                assert(all_bytes(out@) == query_tokens(q));
                assert(out@.len() <= q.len() + 1);
            }
            return out;
        }
        proof {
            is_char_boundary_iff_is_leading_byte(bytes@, k as int);
        }
        let (tok, tail) = rest.split_at(k);
        proof {
            encode_utf8_valid_utf8(tail@);
            reveal_with_fuel(is_char_boundary, 2);
        }
        let (_space, next) = tail.split_at(1);
        let ghost prev = out@;
        out.push(tok);
        rest = next;
        proof {
            assert(str_bytes(tok) =~= q.subrange(start, start + k));
            assert(all_bytes(out@) =~= all_bytes(prev).push(str_bytes(tok)));
            assert(split_acc(q, 32, start, start + k) == seq![q.subrange(start, start + k)] + split_acc(q, 32, start + k + 1, start + k + 1));
            assert(all_bytes(prev) + split_acc(q, 32, start, start + k)
                =~= all_bytes(out@) + split_acc(q, 32, start + k + 1, start + k + 1));
            start = start + k + 1;
            assert(str_bytes(rest) =~= q.subrange(start, q.len() as int));
        }
    }
}


/// An exact rational score, `num / den`; lower is better.
#[derive(Debug, Clone, Copy, PartialEq, Eq, Structural)]
pub struct Score {
    pub num: u128,
    pub den: u128,
}

impl Score {
    /// The bounds within which scores are compared without overflow.
    pub open spec fn wf(self) -> bool {
        &&& 0 < self.den <= 0x1_0000_0000
        &&& self.num < 0x8000_0000_0000_0000_0000_0000
    }

    /// Strictly lower as rationals.
    pub open spec fn below(self, other: Score) -> bool {
        self.num * other.den < other.num * self.den
    }

    /// Equal as rationals.
    pub open spec fn same(self, other: Score) -> bool {
        self.num * other.den == other.num * self.den
    }

    /// The score of a candidate that was never ranked.
    pub fn zero() -> (r: Score)
        ensures
            r.num == 0 && r.den == 1,
    {
        Score { num: 0, den: 1 }
    }

    pub fn less_than(&self, other: &Score) -> (r: bool)
        requires
            self.wf(),
            other.wf(),
        ensures
            r == self.below(*other),
    {
        proof {
            lemma_score_product(*self, *other);
            lemma_score_product(*other, *self);
        }
        self.num * other.den < other.num * self.den
    }

    pub fn equals(&self, other: &Score) -> (r: bool)
        requires
            self.wf(),
            other.wf(),
        ensures
            r == self.same(*other),
    {
        proof {
            lemma_score_product(*self, *other);
            lemma_score_product(*other, *self);
        }
        self.num * other.den == other.num * self.den
    }
}

proof fn lemma_score_product(a: Score, b: Score)
    requires
        a.wf(),
        b.wf(),
    ensures
        a.num * b.den < 0x8000_0000_0000_0000_0000_0000 * 0x1_0000_0001,
{
    assert(a.num * b.den < 0x8000_0000_0000_0000_0000_0000 * 0x1_0000_0001) by (nonlinear_arith)
        requires a.num < 0x8000_0000_0000_0000_0000_0000, b.den <= 0x1_0000_0000;
}

/// One input record: its text, the filename part of it unless plain mode was
/// asked for, and after a ranking pass its score and one match span per token.
#[derive(Debug, Clone)]
pub struct Candidate {
    pub path: String,
    pub name: Option<String>,
    pub rank: Score,
    pub ranges: Vec<Range>,
}

/// What the ranking makes of a candidate, as mathematical values.
pub struct Scored {
    pub path: Seq<char>,
    pub name: Option<Seq<char>>,
    pub rank: Score,
    pub ranges: Seq<(int, int)>,
}

pub open spec fn ranges_view(v: Seq<Range>) -> Seq<(int, int)> {
    v.map_values(|r: Range| (r.start as int, r.end as int))
}

impl Candidate {
    pub open spec fn path_bytes(&self) -> Seq<u8> {
        encode_utf8(self.path@)
    }

    pub open spec fn name_bytes(&self) -> Option<Seq<u8>> {
        match self.name {
            Some(n) => Some(encode_utf8(n@)),
            None => None,
        }
    }

    pub open spec fn name_view(&self) -> Option<Seq<char>> {
        match self.name {
            Some(n) => Some(n@),
            None => None,
        }
    }

    /// Within the sizes the ranking takes, with a name no longer than the path.
    pub open spec fn rankable(&self) -> bool {
        &&& self.path_bytes().len() <= MAX_TEXT
        &&& self.name_bytes() matches Some(n) ==> n.len() <= self.path_bytes().len()
    }

    pub open spec fn scored(&self) -> Scored {
        Scored { path: self.path@, name: self.name_view(), rank: self.rank, ranges: ranges_view(self.ranges@) }
    }
}

/// Sum of the token scores and the match span of each token, if every token matches.
pub open spec fn candidate_rank(path: Seq<u8>, name: Option<Seq<u8>>, tokens: Seq<Seq<u8>>, smart_case: bool) -> Option<(int, Seq<(int, int)>)>
    decreases tokens.len(),
{
    if tokens.len() == 0 {
        Some((0, seq![]))
    } else {
        match candidate_rank(path, name, tokens.drop_last(), smart_case) {
            None => None,
            Some(p) => match token_rank(path, name, tokens.last(), smart_case) {
                None => None,
                Some(t) => Some((p.0 + t.0, p.1.push((t.1, t.2)))),
            },
        }
    }
}

/// The candidate as ranked against the tokens, if all of them match it.
pub open spec fn scored_by(c: Candidate, tokens: Seq<Seq<u8>>, smart_case: bool) -> Option<Scored> {
    match candidate_rank(c.path_bytes(), c.name_bytes(), tokens, smart_case) {
        Some(p) => Some(Scored {
            path: c.path@,
            name: c.name_view(),
            rank: Score { num: p.0 as u128, den: scale(c.name_bytes()) as u128 },
            ranges: p.1,
        }),
        None => None,
    }
}

proof fn lemma_rank_prefix_fails(path: Seq<u8>, name: Option<Seq<u8>>, tokens: Seq<Seq<u8>>, j: int, smart_case: bool)
    requires
        0 <= j <= tokens.len(),
        candidate_rank(path, name, tokens.take(j), smart_case) is None,
    ensures
        candidate_rank(path, name, tokens, smart_case) is None,
    decreases tokens.len(),
{
    if j == tokens.len() {
        assert(tokens.take(j) =~= tokens);
    } else {
        assert(tokens.drop_last().take(j) =~= tokens.take(j));
        lemma_rank_prefix_fails(path, name, tokens.drop_last(), j, smart_case);
    }
}

fn clone_name(name: &Option<String>) -> (r: Option<String>)
    ensures
        r == *name,
{
    match name {
        Some(n) => Some(n.clone()),
        None => None,
    }
}

/// Scores a candidate against every token; `None` when one of them fails.
fn rank_candidate(candidate: &Candidate, query_tokens: &Vec<&str>, smart_case: bool) -> (r: Option<Candidate>)
    requires
        candidate.rankable(),
        query_tokens@.len() <= MAX_TEXT + 1,
        forall|i: int| 0 <= i < query_tokens@.len() ==> str_bytes(#[trigger] query_tokens@[i]).len() <= MAX_TEXT,
    ensures
        match r {
            Some(c) => {
                &&& scored_by(*candidate, all_bytes(query_tokens@), smart_case) == Some(c.scored())
                &&& c.rank.wf()
                &&& c.path == candidate.path
                &&& c.name == candidate.name
            },
            None => scored_by(*candidate, all_bytes(query_tokens@), smart_case) is None,
        },
{
    let path = candidate.path.as_str().as_bytes();
    let name: Option<&[u8]> = match &candidate.name {
        Some(n) => Some(n.as_str().as_bytes()),
        None => None,
    };
    let ghost tokens = all_bytes(query_tokens@);
    let mut rank: u128 = 0;
    let mut ranges: Vec<Range> = Vec::new();
    let mut i: usize = 0;
    while i < query_tokens.len()
        invariant
            tokens == all_bytes(query_tokens@),
            path@ == candidate.path_bytes(),
            opt_bytes(name) == candidate.name_bytes(),
            candidate.rankable(),
            query_tokens@.len() <= MAX_TEXT + 1,
            forall|j: int| 0 <= j < query_tokens@.len() ==> str_bytes(#[trigger] query_tokens@[j]).len() <= MAX_TEXT,
            i <= query_tokens@.len(),
            rank <= i * 0x1_0000_0000_0000_0000,
            candidate_rank(path@, opt_bytes(name), tokens.take(i as int), smart_case) == Some((rank as int, ranges_view(ranges@))),
        decreases query_tokens@.len() - i,
    {
        let token = query_tokens[i].as_bytes();
        proof {
            assert(tokens.take(i + 1).drop_last() =~= tokens.take(i as int));
            assert(tokens.take(i + 1).last() == token@);
        }
        match rank_token(path, name, token, smart_case) {
            Some(t) => {
                assert(rank + t.0 <= (i + 1) * 0x1_0000_0000_0000_0000) by (nonlinear_arith)
                    requires rank <= i * 0x1_0000_0000_0000_0000, t.0 < 0x1_0000_0000_0000_0000;
                rank = rank + t.0;
                let ghost prev = ranges@;
                ranges.push(t.1);
                proof {
                    assert(ranges_view(ranges@) =~= ranges_view(prev).push((t.1.start as int, t.1.end as int)));
                }
            },
            None => {
                proof {
                    lemma_rank_prefix_fails(path@, opt_bytes(name), tokens, i + 1, smart_case);
                }
                return None;
            },
        }
        i = i + 1;
    }
    proof {
        assert(tokens.take(i as int) =~= tokens);
    }
    let den: u128 = match name {
        Some(n) => if n.len() > 0 { 4 * n.len() as u128 } else { 4 },
        None => 4,
    };
    assert(rank < 0x8000_0000_0000_0000_0000_0000) by (nonlinear_arith)
        requires rank <= i * 0x1_0000_0000_0000_0000, i <= 0x4000_0001;
    Some(Candidate {
        path: candidate.path.clone(),
        name: clone_name(&candidate.name),
        rank: Score { num: rank, den },
        ranges,
    })
}


/// The candidates that every token matches, scored, in input order.
pub open spec fn matched(cands: Seq<Candidate>, tokens: Seq<Seq<u8>>, smart_case: bool) -> Seq<Scored>
    decreases cands.len(),
{
    if cands.len() == 0 {
        seq![]
    } else {
        let prev = matched(cands.drop_last(), tokens, smart_case);
        match scored_by(cands.last(), tokens, smart_case) {
            Some(v) => prev.push(v),
            None => prev,
        }
    }
}

/// What ranking `cands` against query `q` keeps, in input order; nothing
/// for an empty query.
pub open spec fn ranked_view(cands: Seq<Candidate>, q: Seq<u8>) -> Seq<Scored> {
    if q.len() == 0 {
        seq![]
    } else {
        matched(cands, query_tokens(q), smart_case_of(q))
    }
}

/// The result of ranking: input order when `keep_order` is set, else rank order.
pub open spec fn rank_result(cands: Seq<Candidate>, q: Seq<u8>, keep_order: bool) -> Seq<Scored> {
    if keep_order {
        ranked_view(cands, q)
    } else {
        rank_sorted(ranked_view(cands, q))
    }
}

pub open spec fn scored_all(v: Seq<Candidate>) -> Seq<Scored> {
    v.map_values(|c: Candidate| c.scored())
}

/// Byte-wise lexical order of two sequences of one length.
pub open spec fn lex_lt(a: Seq<u8>, b: Seq<u8>) -> bool {
    exists|k: int|
        0 <= k < a.len() && k < b.len() && a[k] < b[k] && forall|j: int| 0 <= j < k ==> a[j] == b[j]
}

/// Output order: lower score first, then the shorter path, then the path that
/// is lexically smaller.
pub open spec fn precedes(a: Scored, b: Scored) -> bool {
    let la = encode_utf8(a.path).len();
    let lb = encode_utf8(b.path).len();
    ||| a.rank.below(b.rank)
    ||| (a.rank.same(b.rank) && la < lb)
    ||| (a.rank.same(b.rank) && la == lb && lex_lt(encode_utf8(a.path), encode_utf8(b.path)))
}

/// No element precedes the one before it.
pub open spec fn in_rank_order(v: Seq<Scored>) -> bool {
    forall|i: int| 0 <= i < v.len() - 1 ==> !precedes(#[trigger] v[i + 1], v[i])
}

proof fn lemma_lex_asymmetric(a: Seq<u8>, b: Seq<u8>)
    ensures
        !(lex_lt(a, b) && lex_lt(b, a)),
{
    if lex_lt(a, b) && lex_lt(b, a) {
        let k1 = choose|k: int| 0 <= k < a.len() && k < b.len() && a[k] < b[k] && forall|j: int| 0 <= j < k ==> a[j] == b[j];
        let k2 = choose|k: int| 0 <= k < b.len() && k < a.len() && b[k] < a[k] && forall|j: int| 0 <= j < k ==> b[j] == a[j];
        if k1 < k2 {
            assert(b[k1] == a[k1]);
        } else if k2 < k1 {
            assert(a[k2] == b[k2]);
        }
    }
}

proof fn lemma_precedes_asymmetric(a: Scored, b: Scored)
    ensures
        precedes(a, b) ==> !precedes(b, a),
{
    lemma_lex_asymmetric(encode_utf8(a.path), encode_utf8(b.path));
}

/// Where `c` goes into `out`: before the first element from `i` on that does
/// not precede it.
pub open spec fn insert_point(out: Seq<Scored>, c: Scored, i: int) -> int
    decreases out.len() - i,
{
    if i < 0 || i >= out.len() {
        out.len() as int
    } else if precedes(out[i], c) {
        insert_point(out, c, i + 1)
    } else {
        i
    }
}

/// `v` in rank order, candidates that tie keeping their order.
pub open spec fn rank_sorted(v: Seq<Scored>) -> Seq<Scored>
    decreases v.len(),
{
    if v.len() == 0 {
        seq![]
    } else {
        let rest = rank_sorted(v.drop_first());
        rest.insert(insert_point(rest, v[0], 0), v[0])
    }
}

/// Whether `a` is lexically before `b`, two byte strings of one length.
fn bytes_less(a: &[u8], b: &[u8]) -> (r: bool)
    requires
        a@.len() == b@.len(),
    ensures
        r == lex_lt(a@, b@),
{
    let mut i: usize = 0;
    while i < a.len()
        invariant
            a@.len() == b@.len(),
            i <= a@.len(),
            forall|j: int| 0 <= j < i ==> a@[j] == b@[j],
        decreases a@.len() - i,
    {
        if a[i] != b[i] {
            if a[i] < b[i] {
                return true;
            } else {
                proof {
                    if lex_lt(a@, b@) {
                        let k = choose|k: int| 0 <= k < a@.len() && k < b@.len() && a@[k] < b@[k] && forall|j: int| 0 <= j < k ==> a@[j] == b@[j];
                        if k < i {
                        } else if k > i {
                            assert(a@[i as int] == b@[i as int]);
                        }
                    }
                }
                return false;
            }
        }
        i = i + 1;
    }
    false
}

/// Whether `a` goes before `b` in the ranked output.
fn candidate_precedes(a: &Candidate, b: &Candidate) -> (r: bool)
    requires
        a.rank.wf(),
        b.rank.wf(),
    ensures
        r == precedes(a.scored(), b.scored()),
{
    if a.rank.less_than(&b.rank) {
        return true;
    }
    if !a.rank.equals(&b.rank) {
        return false;
    }
    let pa = a.path.as_str().as_bytes();
    let pb = b.path.as_str().as_bytes();
    if pa.len() != pb.len() {
        return pa.len() < pb.len();
    }
    bytes_less(pa, pb)
}

/// Orders ranked candidates by `precedes`, keeping the input order of
/// candidates that tie.
fn sort_by_rank(v: Vec<Candidate>) -> (r: Vec<Candidate>)
    requires
        forall|i: int| 0 <= i < v@.len() ==> (#[trigger] v@[i]).rank.wf(),
    ensures
        scored_all(r@) == rank_sorted(scored_all(v@)),
        scored_all(r@).to_multiset() == scored_all(v@).to_multiset(),
        in_rank_order(scored_all(r@)),
        forall|i: int| 0 <= i < r@.len() ==> (#[trigger] r@[i]).rank.wf(),
{
    broadcast use vstd::multiset::group_multiset_axioms, vstd::seq_lib::group_to_multiset_ensures;

    let ghost orig = v@;
    let mut v = v;
    let mut out: Vec<Candidate> = Vec::new();
    proof {
        assert(scored_all(out@) =~= Seq::<Scored>::empty());
        assert(orig.take(orig.len() as int) =~= orig);
        assert(scored_all(orig).skip(orig.len() as int) =~= Seq::<Scored>::empty());
        assert(scored_all(out@).to_multiset() =~= Multiset::empty());
        assert(scored_all(out@).to_multiset().add(scored_all(v@).to_multiset()) =~= scored_all(orig).to_multiset());
    }
    while v.len() > 0
        invariant
            scored_all(out@).to_multiset().add(scored_all(v@).to_multiset()) == scored_all(orig).to_multiset(),
            v@.len() <= orig.len(),
            v@ == orig.take(v@.len() as int),
            scored_all(out@) == rank_sorted(scored_all(orig).skip(v@.len() as int)),
            in_rank_order(scored_all(out@)),
            forall|i: int| 0 <= i < out@.len() ==> (#[trigger] out@[i]).rank.wf(),
            forall|i: int| 0 <= i < v@.len() ==> (#[trigger] v@[i]).rank.wf(),
        decreases v@.len(),
    {
        let ghost before = v@;
        let c = v.pop().unwrap();
        proof {
            assert(before =~= v@.push(c));
            assert(scored_all(before) =~= scored_all(v@).push(c.scored()));
            vstd::seq_lib::to_multiset_build(scored_all(v@), c.scored());
        }
        let mut p: usize = 0;
        let mut placed = false;
        while !placed && p < out.len()
            invariant
                p <= out@.len(),
                c.rank.wf(),
                forall|i: int| 0 <= i < out@.len() ==> (#[trigger] out@[i]).rank.wf(),
                forall|i: int| 0 <= i < p ==> precedes(#[trigger] out@[i].scored(), c.scored()),
                placed ==> p < out@.len() && !precedes(out@[p as int].scored(), c.scored()),
                insert_point(scored_all(out@), c.scored(), 0) == insert_point(scored_all(out@), c.scored(), p as int),
            decreases out@.len() - p + (if placed { 0int } else { 1int }),
        {
            if candidate_precedes(&out[p], &c) {
                assert(scored_all(out@)[p as int] == out@[p as int].scored());
                p = p + 1;
            } else {
                assert(scored_all(out@)[p as int] == out@[p as int].scored());
                placed = true;
            }
        }
        let ghost prev = out@;
        out.insert(p, c);
        proof {
            assert(scored_all(out@) =~= scored_all(prev).insert(p as int, c.scored()));
            vstd::seq_lib::to_multiset_insert(scored_all(prev), p as int, c.scored());
            let ghost w = scored_all(out@);
            let ghost pw = scored_all(prev);
            let ghost tail = scored_all(orig).skip(v@.len() as int);
            assert(v@ == orig.take(v@.len() as int)) by {
                assert(before == orig.take(before.len() as int));
                assert(v@ =~= before.take(v@.len() as int));
            }
            assert(tail.drop_first() =~= scored_all(orig).skip(v@.len() as int + 1));
            assert(tail[0] == c.scored()) by {
                assert(before[v@.len() as int] == c);
                assert(orig[v@.len() as int] == c);
            }
            assert(insert_point(pw, c.scored(), p as int) == p);
            assert(w[p as int] == c.scored());
            assert forall|i: int| 0 <= i < w.len() - 1 implies !precedes(#[trigger] w[i + 1], w[i]) by {
                if i + 1 < p {
                    assert(w[i + 1] == pw[i + 1]);
                    assert(w[i] == pw[i]);
                    assert(!precedes(pw[i + 1], pw[i]));
                } else if i + 1 == p {
                    assert(w[i] == pw[i]);
                    assert(pw[i] == prev[i].scored());
                    assert(precedes(prev[i].scored(), c.scored()));
                    lemma_precedes_asymmetric(prev[i].scored(), c.scored());
                    assert(!precedes(c.scored(), pw[i]));
                } else if i == p {
                    assert(w[i + 1] == prev[i].scored());
                    assert(placed);
                    assert(!precedes(w[i + 1], w[i]));
                } else {
                    assert(w[i + 1] == pw[i]);
                    assert(w[i] == pw[i - 1]);
                    let h = i - 1;
                    assert(pw[h + 1] == pw[i]);
                    assert(!precedes(pw[i], pw[i - 1]));
                }
            }
            assert(scored_all(out@).to_multiset().add(scored_all(v@).to_multiset()) =~= scored_all(orig).to_multiset());
        }
    }
    proof {
        assert(scored_all(orig).skip(0) =~= scored_all(orig));
        assert(scored_all(v@) =~= Seq::<Scored>::empty());
        assert(scored_all(v@).to_multiset() =~= Multiset::empty());
        assert(scored_all(out@).to_multiset().add(Multiset::empty()) =~= scored_all(out@).to_multiset());
    }
    out
}

/// Scores every candidate against the query and keeps those that every token
/// matches: in input order when `keep_order` is set, else in rank order. An
/// empty query keeps nothing.
pub fn rank_candidates(candidates: Vec<Candidate>, query: &str, keep_order: bool) -> (r: Vec<Candidate>)
    requires
        str_bytes(query).len() <= MAX_TEXT,
        forall|i: int| 0 <= i < candidates@.len() ==> (#[trigger] candidates@[i]).rankable(),
    ensures
        scored_all(r@) == rank_result(candidates@, str_bytes(query), keep_order),
        keep_order ==> scored_all(r@) == ranked_view(candidates@, str_bytes(query)),
        !keep_order ==> scored_all(r@).to_multiset() == ranked_view(candidates@, str_bytes(query)).to_multiset(),
        !keep_order ==> in_rank_order(scored_all(r@)),
        forall|i: int| 0 <= i < r@.len() ==> (#[trigger] r@[i]).rank.wf(),
{
    let smart_case = !has_upper(query);
    let mut ranked: Vec<Candidate> = Vec::new();
    if query.len() > 0 {
        let tokens_exec = split_query(query);
        let ghost tokens = all_bytes(tokens_exec@);
        let mut j: usize = 0;
        while j < candidates.len()
            invariant
                tokens == all_bytes(tokens_exec@),
                tokens == query_tokens(str_bytes(query)),
                smart_case == smart_case_of(str_bytes(query)),
                tokens_exec@.len() <= MAX_TEXT + 1,
                forall|k: int| 0 <= k < tokens_exec@.len() ==> str_bytes(#[trigger] tokens_exec@[k]).len() <= MAX_TEXT,
                forall|i: int| 0 <= i < candidates@.len() ==> (#[trigger] candidates@[i]).rankable(),
                j <= candidates@.len(),
                scored_all(ranked@) == matched(candidates@.take(j as int), tokens, smart_case),
                forall|i: int| 0 <= i < ranked@.len() ==> (#[trigger] ranked@[i]).rank.wf(),
            decreases candidates@.len() - j,
        {
            proof {
                assert(candidates@.take(j + 1).drop_last() =~= candidates@.take(j as int));
                assert(candidates@.take(j + 1).last() == candidates@[j as int]);
            }
            let ghost prev = ranked@;
            match rank_candidate(&candidates[j], &tokens_exec, smart_case) {
                Some(c) => {
                    ranked.push(c);
                    proof {
                        assert(scored_all(ranked@) =~= scored_all(prev).push(c.scored()));
                    }
                },
                None => {},
            }
            j = j + 1;
        }
        proof {
            assert(candidates@.take(j as int) =~= candidates@);
        }
    }
    proof {
        if query.len() == 0 {
            assert(scored_all(ranked@) =~= ranked_view(candidates@, str_bytes(query)));
        }
    }
    if !keep_order {
        ranked = sort_by_rank(ranked);
    }
    ranked
}


/// Why input could not be turned into candidates.
#[derive(Debug, Clone, Copy, PartialEq, Eq, Structural)]
pub enum CollectError {
    /// A record is not valid UTF-8.
    InvalidEncoding,
}

/// The non-empty parts, in order.
pub open spec fn keep_nonempty(parts: Seq<Seq<u8>>) -> Seq<Seq<u8>>
    decreases parts.len(),
{
    if parts.len() == 0 {
        seq![]
    } else {
        let r = keep_nonempty(parts.drop_last());
        if parts.last().len() > 0 {
            r.push(parts.last())
        } else {
            r
        }
    }
}

proof fn lemma_keep_concat(a: Seq<Seq<u8>>, b: Seq<Seq<u8>>)
    ensures
        keep_nonempty(a + b) == keep_nonempty(a) + keep_nonempty(b),
    decreases b.len(),
{
    if b.len() == 0 {
        assert(a + b =~= a);
        assert(keep_nonempty(a) + keep_nonempty(b) =~= keep_nonempty(a));
    } else {
        lemma_keep_concat(a, b.drop_last());
        assert((a + b).drop_last() =~= a + b.drop_last());
        assert((a + b).last() == b.last());
        if b.last().len() > 0 {
            assert(keep_nonempty(a) + keep_nonempty(b.drop_last()).push(b.last())
                =~= (keep_nonempty(a) + keep_nonempty(b.drop_last())).push(b.last()));
        }
    }
}

/// The records of an input: its non-empty segments between delimiters.
pub open spec fn records(input: Seq<u8>, delimiter: u8) -> Seq<Seq<u8>> {
    keep_nonempty(split_bytes(input, delimiter))
}

/// Index of the last path separator, or -1.
pub open spec fn last_separator(s: Seq<u8>) -> int
    decreases s.len(),
{
    if s.len() == 0 {
        -1
    } else if s.last() == 47 {
        s.len() - 1
    } else {
        last_separator(s.drop_last())
    }
}

/// The part of a path after its last separator; the whole path when it has none.
pub open spec fn file_name(s: Seq<u8>) -> Seq<u8> {
    s.subrange(last_separator(s) + 1, s.len() as int)
}

/// A freshly read candidate for a record.
pub open spec fn collected(c: Candidate, record: Seq<u8>, plain: bool) -> bool {
    &&& c.path_bytes() == record
    &&& c.name_bytes() == (if plain { None } else { Some(file_name(record)) })
    &&& c.rank == Score { num: 0, den: 1 }
    &&& c.ranges@.len() == 0
}

pub open spec fn all_paths(v: Seq<Candidate>) -> Seq<Seq<u8>> {
    v.map_values(|c: Candidate| c.path_bytes())
}

/// Relies on `String::from_utf8`: it succeeds exactly on valid UTF-8 bytes,
/// and the string it returns holds those bytes.
#[verifier::external_body]
fn string_from_utf8(bytes: Vec<u8>) -> (r: Option<String>)
    ensures
        r is Some <==> valid_utf8(bytes@),
        r matches Some(s) ==> encode_utf8(s@) == bytes@,
{
    String::from_utf8(bytes).ok()
}

fn copy_bytes(s: &[u8], start: usize, end: usize) -> (r: Vec<u8>)
    requires
        start <= end <= s@.len(),
    ensures
        r@ == s@.subrange(start as int, end as int),
{
    let mut r: Vec<u8> = Vec::new();
    let mut i: usize = start;
    while i < end
        invariant
            start <= i <= end <= s@.len(),
            r@ == s@.subrange(start as int, i as int),
        decreases end - i,
    {
        r.push(s[i]);
        i = i + 1;
        proof {
            assert(r@ =~= s@.subrange(start as int, i as int));
        }
    }
    r
}

proof fn lemma_last_separator(s: Seq<u8>)
    ensures
        -1 <= last_separator(s) < s.len(),
        last_separator(s) >= 0 ==> s[last_separator(s)] == 47,
        forall|k: int| last_separator(s) < k < s.len() ==> s[k] != 47,
    decreases s.len(),
{
    if s.len() > 0 && s.last() != 47 {
        lemma_last_separator(s.drop_last());
        assert forall|k: int| last_separator(s) < k < s.len() implies s[k] != 47 by {
            if k < s.len() - 1 {
                assert(s.drop_last()[k] == s[k]);
            }
        }
    }
}

/// Index of the last `/` in `s`, or `None`.
fn find_last_separator(s: &[u8]) -> (r: Option<usize>)
    ensures
        match r {
            Some(k) => last_separator(s@) == k && k < s@.len(),
            None => last_separator(s@) == -1,
        },
{
    proof {
        assert(s@.subrange(0, s@.len() as int) =~= s@);
        lemma_last_separator(s@);
    }
    let mut i: usize = s.len();
    while i > 0
        invariant
            i <= s@.len(),
            -1 <= last_separator(s@) < s@.len(),
            last_separator(s@) == last_separator(s@.subrange(0, i as int)),
        decreases i,
    {
        proof {
            assert(s@.subrange(0, i as int).drop_last() =~= s@.subrange(0, i - 1));
        }
        if s[i - 1] == 47 {
            return Some(i - 1);
        }
        i = i - 1;
    }
    None
}

/// The candidate for the record `content[start..end]`, or `None` when it is
/// not valid UTF-8.
fn make_candidate(content: &[u8], start: usize, end: usize, plain: bool) -> (r: Option<Candidate>)
    requires
        start <= end <= content@.len(),
    ensures
        match r {
            Some(c) => valid_utf8(content@.subrange(start as int, end as int))
                && collected(c, content@.subrange(start as int, end as int), plain),
            None => !valid_utf8(content@.subrange(start as int, end as int)),
        },
{
    let bytes = copy_bytes(content, start, end);
    let ghost seg = bytes@;
    let path = match string_from_utf8(bytes) {
        Some(p) => p,
        None => {
            return None;
        },
    };
    let name = if plain {
        None
    } else {
        let pb = path.as_str().as_bytes();
        let k = find_last_separator(pb);
        let from: usize = match k {
            Some(k) => k + 1,
            None => 0,
        };
        proof {
            lemma_last_separator(seg);
            if let Some(k) = k {
                is_char_boundary_iff_is_leading_byte(seg, k as int);
                valid_utf8_split(seg, k as int);
                let t = seg.subrange(k as int, seg.len() as int);
                assert(pop_first_scalar(t) =~= seg.subrange(k + 1, seg.len() as int));
            } else {
                assert(seg.subrange(0, seg.len() as int) =~= seg);
            }
        }
        let name_bytes = copy_bytes(pb, from, pb.len());
        match string_from_utf8(name_bytes) {
            Some(n) => Some(n),
            None => {
                return None;
            },
        }
    };
    Some(Candidate { path, name, rank: Score::zero(), ranges: Vec::new() })
}

impl Candidate {
    /// Splits `content` on `delimiter` into candidates, in input order,
    /// dropping empty records. Unless `plain`, each candidate's name is the
    /// part of its path after the last `/`. Fails when a record is not valid
    /// UTF-8.
    pub fn collect(content: &[u8], delimiter: u8, plain: bool) -> (r: Result<Vec<Candidate>, CollectError>)
        ensures
            r is Ok <==> forall|k: int| 0 <= k < records(content@, delimiter).len()
                ==> valid_utf8(#[trigger] records(content@, delimiter)[k]),
            r matches Ok(v) ==> v@.len() == records(content@, delimiter).len(),
            r matches Ok(v) ==> forall|k: int| 0 <= k < v@.len()
                ==> collected(#[trigger] v@[k], records(content@, delimiter)[k], plain),
    {
        let ghost whole = split_bytes(content@, delimiter);
        let ghost mut parts: Seq<Seq<u8>> = seq![];
        let mut out: Vec<Candidate> = Vec::new();
        let mut start: usize = 0;
        let mut i: usize = 0;
        while i < content.len()
            invariant
                whole == split_bytes(content@, delimiter),
                start <= i <= content@.len(),
                whole == parts + split_acc(content@, delimiter, start as int, i as int),
                out@.len() == keep_nonempty(parts).len(),
                forall|k: int| 0 <= k < out@.len() ==> collected(#[trigger] out@[k], keep_nonempty(parts)[k], plain),
                forall|k: int| 0 <= k < keep_nonempty(parts).len() ==> valid_utf8(#[trigger] keep_nonempty(parts)[k]),
            decreases content@.len() - i,
        {
            if content[i] == delimiter {
                let ghost seg = content@.subrange(start as int, i as int);
                proof {
                    assert(split_acc(content@, delimiter, start as int, i as int)
                        == seq![seg] + split_acc(content@, delimiter, i + 1, i + 1));
                    assert(parts.push(seg).drop_last() =~= parts);
                }
                if i > start {
                    match make_candidate(content, start, i, plain) {
                        Some(c) => {
                            out.push(c);
                        },
                        None => {
                            proof {
                                let rest = split_acc(content@, delimiter, i + 1, i + 1);
                                assert(whole =~= parts.push(seg) + rest);
                                lemma_keep_concat(parts.push(seg), rest);
                                assert(keep_nonempty(parts.push(seg)) == keep_nonempty(parts).push(seg));
                                assert(records(content@, delimiter) == keep_nonempty(whole));
                                assert(keep_nonempty(whole)[keep_nonempty(parts).len() as int] == seg);
                            }
                            return Err(CollectError::InvalidEncoding);
                        },
                    }
                }
                proof {
                    assert(whole =~= parts.push(seg) + split_acc(content@, delimiter, i + 1, i + 1));
                    parts = parts.push(seg);
                }
                start = i + 1;
            }
            i = i + 1;
        }
        let ghost seg = content@.subrange(start as int, content@.len() as int);
        proof {
            assert(parts.push(seg).drop_last() =~= parts);
            assert(whole =~= parts.push(seg));
        }
        if content.len() > start {
            match make_candidate(content, start, content.len(), plain) {
                Some(c) => {
                    out.push(c);
                },
                None => {
                    proof {
                        assert(keep_nonempty(parts.push(seg)) == keep_nonempty(parts).push(seg));
                        assert(records(content@, delimiter) == keep_nonempty(whole));
                        assert(keep_nonempty(whole)[keep_nonempty(parts).len() as int] == seg);
                    }
                    return Err(CollectError::InvalidEncoding);
                },
            }
        }
        Ok(out)
    }
}


/// Ranking is a function of its inputs: the same candidates, query and order
/// flag give the same result.
pub proof fn rank_is_deterministic(c1: Seq<Candidate>, c2: Seq<Candidate>, q1: Seq<u8>, q2: Seq<u8>, keep_order: bool)
    requires
        c1 == c2,
        q1 == q2,
    ensures
        rank_result(c1, q1, keep_order) == rank_result(c2, q2, keep_order),
{
}

/// An empty query keeps no candidate, in either order.
pub proof fn empty_query_keeps_nothing(cands: Seq<Candidate>, keep_order: bool)
    ensures
        rank_result(cands, seq![], keep_order).len() == 0,
{
    assert(rank_sorted(seq![]) == Seq::<Scored>::empty());
}

/// A candidate is kept only when every token of the query matches it, however
/// well the others score.
pub proof fn every_token_must_match(c: Candidate, tokens: Seq<Seq<u8>>, smart_case: bool)
    ensures
        scored_by(c, tokens, smart_case) is Some <==> forall|i: int| 0 <= i < tokens.len()
            ==> (#[trigger] token_rank(c.path_bytes(), c.name_bytes(), tokens[i], smart_case)) is Some,
    decreases tokens.len(),
{
    lemma_rank_all_tokens(c.path_bytes(), c.name_bytes(), tokens, smart_case);
}

proof fn lemma_rank_all_tokens(path: Seq<u8>, name: Option<Seq<u8>>, tokens: Seq<Seq<u8>>, smart_case: bool)
    ensures
        candidate_rank(path, name, tokens, smart_case) is Some <==> forall|i: int| 0 <= i < tokens.len()
            ==> (#[trigger] token_rank(path, name, tokens[i], smart_case)) is Some,
    decreases tokens.len(),
{
    if tokens.len() > 0 {
        let init = tokens.drop_last();
        lemma_rank_all_tokens(path, name, init, smart_case);
        if candidate_rank(path, name, tokens, smart_case) is Some {
            assert forall|i: int| 0 <= i < tokens.len() implies (#[trigger] token_rank(path, name, tokens[i], smart_case)) is Some by {
                if i < tokens.len() - 1 {
                    assert(init[i] == tokens[i]);
                }
            }
        } else {
            if candidate_rank(path, name, init, smart_case) is None {
                let i = choose|i: int| 0 <= i < init.len() && (#[trigger] token_rank(path, name, init[i], smart_case)) is None;
                assert(init[i] == tokens[i]);
            } else {
                assert(token_rank(path, name, tokens[tokens.len() - 1], smart_case) is None);
            }
        }
    }
}


/// Least score an alignment of a token of length `len` can have.
pub open spec fn least_score(len: int) -> int {
    if len >= 2 { 2 } else { 1 }
}

proof fn lemma_align_floor(s: Seq<u8>, token: Seq<u8>, i: int, last: int, run: bool, smart_case: bool)
    requires
        0 <= last,
    ensures
        align(s, token, i, last, run, smart_case) matches Some(a) ==> a.0 >= 0 && (0 <= i < token.len() && !run ==> a.0 >= 1),
    decreases token.len() - i,
{
    if 0 <= i < token.len() {
        lemma_first_match(s, last + 1, token[i], smart_case);
        match first_match(s, last + 1, token[i], smart_case) {
            None => {},
            Some(idx) => {
                lemma_align_floor(s, token, i + 1, idx, idx == last + 1, smart_case);
            },
        }
    }
}

proof fn lemma_best_floor(s: Seq<u8>, token: Seq<u8>, from: int, smart_case: bool)
    requires
        token.len() > 0,
    ensures
        best_from(s, token, from, smart_case) matches Some(m) ==> m.0 >= least_score(token.len() as int),
    decreases s.len() - from,
{
    if 0 <= from < s.len() {
        lemma_best_floor(s, token, from + 1, smart_case);
        lemma_align_floor(s, token, 1, from, false, smart_case);
    }
}

proof fn lemma_align_self(token: Seq<u8>, i: int, smart_case: bool)
    requires
        1 <= i <= token.len(),
    ensures
        align(token, token, i, i - 1, true, smart_case) == Some((0int, token.len() - 1)),
    decreases token.len() - i,
{
    if i < token.len() {
        assert(first_match(token, i, token[i], smart_case) == Some(i));
        lemma_align_self(token, i + 1, smart_case);
    }
}

proof fn lemma_best_self(token: Seq<u8>, smart_case: bool)
    requires
        token.len() > 0,
    ensures
        best_from(token, token, 0, smart_case) matches Some(m) && m.0 == least_score(token.len() as int),
{
    lemma_best_floor(token, token, 1, smart_case);
    if token.len() >= 2 {
        assert(first_match(token, 1, token[1], smart_case) == Some(1int));
        lemma_align_self(token, 2, smart_case);
    }
    assert(alignment(token, token, 0, smart_case) matches Some(a) && a.0 == least_score(token.len() as int));
}

/// For one token, a candidate whose name is the token itself scores strictly
/// better than one whose longer name the token covers less than half of.
pub proof fn exact_name_beats_small_share(path1: Seq<u8>, path2: Seq<u8>, name2: Seq<u8>, token: Seq<u8>, smart_case: bool)
    requires
        token.len() > 0,
        token.len() <= path1.len(),
        name2.len() <= path2.len(),
        2 * token.len() < name2.len(),
        best_from(name2, token, 0, smart_case) is Some,
    ensures
        token_rank(path1, Some(token), token, smart_case) matches Some(a)
            && token_rank(path2, Some(name2), token, smart_case) matches Some(b)
            && a.0 * scale(Some(name2)) < b.0 * scale(Some(token)),
{
    lemma_best_self(token, smart_case);
    lemma_best_floor(name2, token, 0, smart_case);
    let r1 = best_from(token, token, 0, smart_case).unwrap().0;
    let r2 = best_from(name2, token, 0, smart_case).unwrap().0;
    let t = token.len() as int;
    let n = name2.len() as int;
    assert(r1 * t * (4 * n) < 2 * r2 * (n - t) * (4 * t)) by (nonlinear_arith)
        requires 1 <= r1 <= r2, 0 < t, 2 * t < n;
}


proof fn lemma_matched_concat(front: Seq<Candidate>, back: Seq<Candidate>, tokens: Seq<Seq<u8>>, smart_case: bool)
    ensures
        matched(front + back, tokens, smart_case) == matched(front, tokens, smart_case) + matched(back, tokens, smart_case),
    decreases back.len(),
{
    if back.len() == 0 {
        assert(front + back =~= front);
        assert(matched(front, tokens, smart_case) + matched(back, tokens, smart_case) =~= matched(front, tokens, smart_case));
    } else {
        lemma_matched_concat(front, back.drop_last(), tokens, smart_case);
        assert((front + back).drop_last() =~= front + back.drop_last());
        assert((front + back).last() == back.last());
        let a = matched(front, tokens, smart_case);
        let b = matched(back.drop_last(), tokens, smart_case);
        if let Some(v) = scored_by(back.last(), tokens, smart_case) {
            assert(a + b.push(v) =~= (a + b).push(v));
        }
    }
}

/// With `keep_order`, the candidates kept from an earlier part of the input
/// all come before those kept from a later part, whatever their scores.
pub proof fn keep_order_keeps_input_order(front: Seq<Candidate>, back: Seq<Candidate>, q: Seq<u8>)
    ensures
        rank_result(front + back, q, true) == rank_result(front, q, true) + rank_result(back, q, true),
{
    if q.len() == 0 {
        assert(Seq::<Scored>::empty() + Seq::<Scored>::empty() =~= Seq::<Scored>::empty());
    } else {
        lemma_matched_concat(front, back, query_tokens(q), smart_case_of(q));
    }
}


/// In rank order, neighbours of equal score come shorter path first, and
/// among paths of one length the lexically smaller first.
pub proof fn ties_go_shorter_then_lexical(v: Seq<Scored>, i: int)
    requires
        in_rank_order(v),
        0 <= i < v.len() - 1,
        v[i].rank.same(v[i + 1].rank),
    ensures
        encode_utf8(v[i].path).len() <= encode_utf8(v[i + 1].path).len(),
        encode_utf8(v[i].path).len() == encode_utf8(v[i + 1].path).len()
            ==> !lex_lt(encode_utf8(v[i + 1].path), encode_utf8(v[i].path)),
{
    assert(!precedes(v[i + 1], v[i]));
}

} // verus!
