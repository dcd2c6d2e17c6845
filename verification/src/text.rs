//! Text primitives over sequences of characters: whitespace, trimming,
//! line splitting, searching and joining, each with a spec that the
//! executable version is proved against.

use vstd::prelude::*;

verus! {

// ───────────────────────── specs ─────────────────────────

/// Unicode `White_Space` (the set `char::is_whitespace` and regex `\s` use).
pub open spec fn is_ws(c: char) -> bool {
    let u = c as u32;
    ||| 9 <= u <= 13
    ||| u == 32
    ||| u == 0x85
    ||| u == 0xA0
    ||| u == 0x1680
    ||| 0x2000 <= u <= 0x200A
    ||| u == 0x2028
    ||| u == 0x2029
    ||| u == 0x202F
    ||| u == 0x205F
    ||| u == 0x3000
}

pub open spec fn trim_start(s: Seq<char>) -> Seq<char>
    decreases s.len(),
{
    if s.len() > 0 && is_ws(s[0]) {
        trim_start(s.drop_first())
    } else {
        s
    }
}

pub open spec fn trim_end(s: Seq<char>) -> Seq<char>
    decreases s.len(),
{
    if s.len() > 0 && is_ws(s.last()) {
        trim_end(s.drop_last())
    } else {
        s
    }
}

pub open spec fn trim(s: Seq<char>) -> Seq<char> {
    trim_end(trim_start(s))
}

/// Drops every trailing character that `strip` holds.
pub open spec fn trim_end_chars(s: Seq<char>, strip: Seq<char>) -> Seq<char>
    decreases s.len(),
{
    if s.len() > 0 && strip.contains(s.last()) {
        trim_end_chars(s.drop_last(), strip)
    } else {
        s
    }
}

/// Drops every leading character that `strip` holds.
pub open spec fn trim_start_chars(s: Seq<char>, strip: Seq<char>) -> Seq<char>
    decreases s.len(),
{
    if s.len() > 0 && strip.contains(s[0]) {
        trim_start_chars(s.drop_first(), strip)
    } else {
        s
    }
}

pub open spec fn is_prefix(p: Seq<char>, s: Seq<char>) -> bool {
    p.len() <= s.len() && s.take(p.len() as int) == p
}

pub open spec fn is_suffix(p: Seq<char>, s: Seq<char>) -> bool {
    p.len() <= s.len() && s.skip(s.len() - p.len()) == p
}

/// `p` occurs in `s` starting at index `i`.
pub open spec fn occurs_at(s: Seq<char>, p: Seq<char>, i: int) -> bool {
    0 <= i && i + p.len() <= s.len() && s.subrange(i, i + p.len()) == p
}

pub open spec fn contains_sub(s: Seq<char>, p: Seq<char>) -> bool {
    exists|i: int| occurs_at(s, p, i)
}

/// Index of the first occurrence of `c` in `s` at or after `from`.
pub open spec fn find_char_from(s: Seq<char>, c: char, from: int) -> Option<int>
    decreases s.len() - from,
{
    if from < 0 || from >= s.len() {
        None
    } else if s[from] == c {
        Some(from)
    } else {
        find_char_from(s, c, from + 1)
    }
}

/// What `str::split` with a single character gives: never empty.
pub open spec fn split_char(s: Seq<char>, c: char) -> Seq<Seq<char>>
    decreases s.len(),
{
    match find_char_from(s, c, 0) {
        Some(i) => {
            proof {
                lemma_find_char_from(s, c, 0);
            }
            seq![s.take(i)] + split_char(s.skip(i + 1), c)
        },
        None => seq![s],
    }
}

/// A line without its terminator: a `\r` goes only when a `\n` followed it.
pub open spec fn strip_cr(l: Seq<char>) -> Seq<char> {
    if l.len() > 0 && l.last() == '\r' {
        l.drop_last()
    } else {
        l
    }
}

/// What `str::lines` gives.
pub open spec fn lines(s: Seq<char>) -> Seq<Seq<char>>
    decreases s.len(),
{
    if s.len() == 0 {
        seq![]
    } else {
        match find_char_from(s, '\n', 0) {
            Some(i) => {
                proof {
                    lemma_find_char_from(s, '\n', 0);
                }
                seq![strip_cr(s.take(i))] + lines(s.skip(i + 1))
            },
            None => seq![s],
        }
    }
}

/// `parts` joined with `sep` between neighbours.
pub open spec fn join(parts: Seq<Seq<char>>, sep: Seq<char>) -> Seq<char>
    decreases parts.len(),
{
    if parts.len() == 0 {
        seq![]
    } else if parts.len() == 1 {
        parts[0]
    } else {
        join(parts.drop_last(), sep) + sep + parts.last()
    }
}

/// What `str::split_whitespace` gives: the maximal runs of non-whitespace.
pub open spec fn words(s: Seq<char>) -> Seq<Seq<char>>
    decreases s.len(),
{
    let t = trim_start(s);
    if t.len() == 0 {
        seq![]
    } else {
        let n = word_len(t, 0);
        proof {
            lemma_trim_start_suffix(s);
            lemma_word_len(t, 0);
        }
        seq![t.take(n)] + words(t.skip(n))
    }
}

/// Length of the run of non-whitespace at the front of `s.skip(from)`.
pub open spec fn word_len(s: Seq<char>, from: int) -> int
    decreases s.len() - from,
{
    if from < 0 || from >= s.len() || is_ws(s[from]) {
        if from < 0 { 0 } else { from }
    } else {
        word_len(s, from + 1)
    }
}

pub open spec fn ascii_lower(c: char) -> char {
    if 'A' <= c && c <= 'Z' {
        ((c as u32) + 32) as char
    } else {
        c
    }
}

pub open spec fn ascii_lower_seq(s: Seq<char>) -> Seq<char> {
    s.map_values(|c: char| ascii_lower(c))
}

// ───────────────────────── lemmas ─────────────────────────

pub proof fn lemma_word_len(s: Seq<char>, from: int)
    requires
        0 <= from <= s.len(),
    ensures
        from <= word_len(s, from) <= s.len(),
        from < s.len() && !is_ws(s[from]) ==> word_len(s, from) > from,
        forall|j: int| from <= j < word_len(s, from) ==> !is_ws(s[j]),
        word_len(s, from) < s.len() ==> is_ws(s[word_len(s, from)]),
    decreases s.len() - from,
{
    if from >= s.len() || is_ws(s[from]) {
    } else {
        lemma_word_len(s, from + 1);
    }
}

pub proof fn lemma_trim_start_suffix(s: Seq<char>)
    ensures
        trim_start(s).len() <= s.len(),
        trim_start(s) == s.skip(s.len() - trim_start(s).len()),
        trim_start(s).len() > 0 ==> !is_ws(trim_start(s)[0]),
    decreases s.len(),
{
    if s.len() > 0 && is_ws(s[0]) {
        lemma_trim_start_suffix(s.drop_first());
        assert(s.drop_first().skip(s.drop_first().len() - trim_start(s).len()) =~= s.skip(
            s.len() - trim_start(s).len(),
        ));
    } else {
        assert(s.skip(0) =~= s);
    }
}

pub proof fn lemma_trim_end_prefix(s: Seq<char>)
    ensures
        trim_end(s).len() <= s.len(),
        trim_end(s) == s.take(trim_end(s).len() as int),
        trim_end(s).len() > 0 ==> !is_ws(trim_end(s).last()),
    decreases s.len(),
{
    if s.len() > 0 && is_ws(s.last()) {
        lemma_trim_end_prefix(s.drop_last());
        assert(s.drop_last().take(trim_end(s).len() as int) =~= s.take(trim_end(s).len() as int));
    } else {
        assert(s.take(s.len() as int) =~= s);
    }
}

pub proof fn lemma_find_char_from(s: Seq<char>, c: char, from: int)
    ensures
        match find_char_from(s, c, from) {
            Some(i) => from <= i < s.len() && s[i] == c && 0 <= from && forall|j: int|
                from <= j < i ==> s[j] != c,
            None => forall|j: int| 0 <= from <= j < s.len() ==> s[j] != c,
        },
    decreases s.len() - from,
{
    if from < 0 || from >= s.len() {
    } else if s[from] == c {
    } else {
        lemma_find_char_from(s, c, from + 1);
    }
}

/// `s` holds no `c`.
pub open spec fn no_char(s: Seq<char>, c: char) -> bool {
    forall|i: int| 0 <= i < s.len() ==> s[i] != c
}

pub proof fn lemma_find_after(a: Seq<char>, b: Seq<char>, c: char)
    requires
        no_char(a, c),
    ensures
        find_char_from(a + seq![c] + b, c, 0) == Some(a.len() as int),
{
    let s = a + seq![c] + b;
    lemma_find_char_from(s, c, 0);
    assert(s[a.len() as int] == c);
    match find_char_from(s, c, 0) {
        Some(i) => {
            if i < a.len() {
                assert(s[i] == a[i]);
            }
        },
        None => {},
    }
}

pub proof fn lemma_lines_cons(a: Seq<char>, b: Seq<char>)
    requires
        no_char(a, '\n'),
    ensures
        lines(a + seq!['\n'] + b) == seq![strip_cr(a)] + lines(b),
{
    let s = a + seq!['\n'] + b;
    lemma_find_after(a, b, '\n');
    assert(s.take(a.len() as int) =~= a);
    assert(s.skip(a.len() + 1int) =~= b);
}

// ───────────────────────── exec ─────────────────────────

pub fn is_ws_char(c: char) -> (r: bool)
    ensures
        r == is_ws(c),
{
    let u = c as u32;
    (9 <= u && u <= 13) || u == 32 || u == 0x85 || u == 0xA0 || u == 0x1680 || (0x2000 <= u && u
        <= 0x200A) || u == 0x2028 || u == 0x2029 || u == 0x202F || u == 0x205F || u == 0x3000
}

/// The characters of `s`, in order.
pub fn chars_of(s: &str) -> (v: Vec<char>)
    ensures
        v@ == s@,
{
    let mut v: Vec<char> = Vec::new();
    for c in it: s.chars()
        invariant
            v@ == it.seq().take(it.index() as int),
    {
        v.push(c);
    }
    v
}

/// `std::iter::FromIterator` for `String` over characters: the string of `v`.
#[verifier::external_body]
pub fn string_of(v: &[char]) -> (s: String)
    ensures
        s@ == v@,
{
    v.iter().collect()
}

/// `s[i..j]` as a fresh vector.
pub fn slice_chars(s: &[char], i: usize, j: usize) -> (r: Vec<char>)
    requires
        i <= j <= s@.len(),
    ensures
        r@ == s@.subrange(i as int, j as int),
{
    let mut r: Vec<char> = Vec::new();
    let mut k: usize = i;
    while k < j
        invariant
            i <= k <= j <= s@.len(),
            r@ == s@.subrange(i as int, k as int),
        decreases j - k,
    {
        r.push(s[k]);
        k += 1;
    }
    r
}

pub fn chars_eq(a: &[char], b: &[char]) -> (r: bool)
    ensures
        r == (a@ == b@),
{
    if a.len() != b.len() {
        return false;
    }
    let mut i: usize = 0;
    while i < a.len()
        invariant
            a@.len() == b@.len(),
            0 <= i <= a@.len(),
            forall|j: int| 0 <= j < i ==> a@[j] == b@[j],
        decreases a.len() - i,
    {
        if a[i] != b[i] {
            return false;
        }
        i += 1;
    }
    assert(a@ =~= b@);
    true
}

/// Whether `p` occurs in `s` at index `i`.
pub fn occurs_at_exec(s: &[char], p: &[char], i: usize) -> (r: bool)
    ensures
        r == occurs_at(s@, p@, i as int),
{
    if i > s.len() || p.len() > s.len() - i {
        return false;
    }
    let mut k: usize = 0;
    while k < p.len()
        invariant
            i + p.len() <= s.len(),
            0 <= k <= p@.len(),
            forall|j: int| 0 <= j < k ==> s@[i + j] == p@[j],
        decreases p.len() - k,
    {
        assert(i + k < s@.len());
        if s[i + k] != p[k] {
            assert(s@.subrange(i as int, i + p@.len())[k as int] != p@[k as int]);
            return false;
        }
        k += 1;
    }
    assert(s@.subrange(i as int, i + p@.len()) =~= p@);
    true
}

pub fn starts_with(s: &[char], p: &[char]) -> (r: bool)
    ensures
        r == is_prefix(p@, s@),
{
    let r = occurs_at_exec(s, p, 0);
    assert(s@.subrange(0, p@.len() as int) =~= s@.take(p@.len() as int));
    r
}

pub fn ends_with(s: &[char], p: &[char]) -> (r: bool)
    ensures
        r == is_suffix(p@, s@),
{
    if p.len() > s.len() {
        return false;
    }
    let r = occurs_at_exec(s, p, s.len() - p.len());
    assert(s@.subrange(s@.len() - p@.len(), s@.len() as int) =~= s@.skip(s@.len() - p@.len()));
    r
}

/// Index of the first occurrence of `p` in `s`, if any.
pub fn find_sub(s: &[char], p: &[char]) -> (r: Option<usize>)
    ensures
        match r {
            Some(i) => occurs_at(s@, p@, i as int) && forall|j: int|
                0 <= j < i ==> !occurs_at(s@, p@, j),
            None => !contains_sub(s@, p@),
        },
{
    if p.len() == 0 {
        assert(occurs_at(s@, p@, 0)) by {
            assert(s@.subrange(0, 0) =~= p@);
        }
        return Some(0);
    }
    let mut i: usize = 0;
    while i < s.len()
        invariant
            0 <= i <= s@.len(),
            p@.len() > 0,
            forall|j: int| 0 <= j < i ==> !occurs_at(s@, p@, j),
        decreases s.len() - i,
    {
        if occurs_at_exec(s, p, i) {
            return Some(i);
        }
        i += 1;
    }
    assert forall|j: int| !occurs_at(s@, p@, j) by {
        if 0 <= j < i {
        }
    }
    None
}

pub fn contains_chars(s: &[char], p: &[char]) -> (r: bool)
    ensures
        r == contains_sub(s@, p@),
{
    match find_sub(s, p) {
        Some(_) => true,
        None => false,
    }
}

pub fn contains_char(s: &[char], c: char) -> (r: bool)
    ensures
        r == s@.contains(c),
{
    let mut i: usize = 0;
    while i < s.len()
        invariant
            0 <= i <= s@.len(),
            forall|j: int| 0 <= j < i ==> s@[j] != c,
        decreases s.len() - i,
    {
        if s[i] == c {
            return true;
        }
        i += 1;
    }
    false
}

pub fn trim_start_exec(s: &[char]) -> (r: Vec<char>)
    ensures
        r@ == trim_start(s@),
{
    let mut i: usize = 0;
    assert(s@.skip(0) =~= s@);
    while i < s.len() && is_ws_char(s[i])
        invariant
            0 <= i <= s@.len(),
            trim_start(s@) == trim_start(s@.skip(i as int)),
        decreases s.len() - i,
    {
        assert(s@.skip(i as int).drop_first() =~= s@.skip(i + 1));
        i += 1;
    }
    assert(s@.subrange(i as int, s@.len() as int) =~= s@.skip(i as int));
    slice_chars(s, i, s.len())
}

pub fn trim_end_exec(s: &[char]) -> (r: Vec<char>)
    ensures
        r@ == trim_end(s@),
{
    let mut j: usize = s.len();
    assert(s@.take(s@.len() as int) =~= s@);
    while j > 0 && is_ws_char(s[j - 1])
        invariant
            0 <= j <= s@.len(),
            trim_end(s@) == trim_end(s@.take(j as int)),
        decreases j,
    {
        assert(s@.take(j as int).drop_last() =~= s@.take(j - 1));
        j -= 1;
    }
    assert(s@.subrange(0, j as int) =~= s@.take(j as int));
    slice_chars(s, 0, j)
}

pub fn trim_exec(s: &[char]) -> (r: Vec<char>)
    ensures
        r@ == trim(s@),
{
    let a = trim_start_exec(s);
    trim_end_exec(&a)
}

pub fn trim_end_chars_exec(s: &[char], strip: &[char]) -> (r: Vec<char>)
    ensures
        r@ == trim_end_chars(s@, strip@),
{
    let mut j: usize = s.len();
    assert(s@.take(s@.len() as int) =~= s@);
    while j > 0 && contains_char(strip, s[j - 1])
        invariant
            0 <= j <= s@.len(),
            trim_end_chars(s@, strip@) == trim_end_chars(s@.take(j as int), strip@),
        decreases j,
    {
        assert(s@.take(j as int).drop_last() =~= s@.take(j - 1));
        j -= 1;
    }
    assert(s@.subrange(0, j as int) =~= s@.take(j as int));
    slice_chars(s, 0, j)
}

pub fn trim_start_chars_exec(s: &[char], strip: &[char]) -> (r: Vec<char>)
    ensures
        r@ == trim_start_chars(s@, strip@),
{
    let mut i: usize = 0;
    assert(s@.skip(0) =~= s@);
    while i < s.len() && contains_char(strip, s[i])
        invariant
            0 <= i <= s@.len(),
            trim_start_chars(s@, strip@) == trim_start_chars(s@.skip(i as int), strip@),
        decreases s.len() - i,
    {
        assert(s@.skip(i as int).drop_first() =~= s@.skip(i + 1));
        i += 1;
    }
    assert(s@.subrange(i as int, s@.len() as int) =~= s@.skip(i as int));
    slice_chars(s, i, s.len())
}

/// Index of the first `c` in `s` at or after `from`.
pub fn find_char_exec(s: &[char], c: char, from: usize) -> (r: Option<usize>)
    ensures
        r matches Some(i) ==> find_char_from(s@, c, from as int) == Some(i as int),
        r is None ==> find_char_from(s@, c, from as int) is None,
        r matches Some(i) ==> from <= i < s.len(),
{
    proof {
        lemma_find_char_from(s@, c, from as int);
    }
    let mut i = from;
    while i < s.len()
        invariant
            from <= i,
            find_char_from(s@, c, from as int) == find_char_from(s@, c, i as int),
        decreases s.len() - i,
    {
        if s[i] == c {
            return Some(i);
        }
        i += 1;
    }
    None
}

pub proof fn lemma_find_char_shift(s: Seq<char>, c: char, k: int, from: int)
    requires
        0 <= k <= s.len(),
        0 <= from,
    ensures
        find_char_from(s.skip(k), c, from) == (match find_char_from(s, c, from + k) {
            Some(i) => Some(i - k),
            None => None::<int>,
        }),
    decreases s.len() - k - from,
{
    if from >= s.len() - k {
    } else if s[from + k] == c {
    } else {
        lemma_find_char_shift(s, c, k, from + 1);
    }
}

/// What `str::lines` gives, as vectors.
pub fn lines_exec(s: &[char]) -> (r: Vec<Vec<char>>)
    ensures
        r@.len() == lines(s@).len(),
        forall|k: int| 0 <= k < r@.len() ==> #[trigger] r@[k]@ == lines(s@)[k],
{
    let mut r: Vec<Vec<char>> = Vec::new();
    let mut pos: usize = 0;
    let ghost acc: Seq<Seq<char>> = seq![];
    assert(s@.skip(0) =~= s@);
    assert(acc + lines(s@) =~= lines(s@));
    while pos < s.len()
        invariant
            0 <= pos <= s@.len(),
            r@.len() == acc.len(),
            forall|k: int| 0 <= k < r@.len() ==> #[trigger] r@[k]@ == acc[k],
            lines(s@) == acc + lines(s@.skip(pos as int)),
        decreases s.len() - pos,
    {
        let ghost rest = s@.skip(pos as int);
        proof {
            lemma_find_char_shift(s@, '\n', pos as int, 0);
        }
        match find_char_exec(s, '\n', pos) {
            Some(i) => {
                let mut line = slice_chars(s, pos, i);
                assert(line@ =~= rest.take(i - pos));
                if line.len() > 0 && line[line.len() - 1] == '\r' {
                    line.pop();
                }
                proof {
                    assert(rest.skip(i - pos + 1) =~= s@.skip(i + 1));
                    assert(lines(rest) == seq![strip_cr(rest.take(i - pos))] + lines(rest.skip(i - pos + 1)));
                    let old_acc = acc;
                    acc = acc.push(strip_cr(rest.take(i - pos)));
                    assert(old_acc + (seq![strip_cr(rest.take(i - pos))] + lines(s@.skip(i + 1))) =~= acc + lines(s@.skip(i + 1)));
                }
                r.push(line);
                pos = i + 1;
            },
            None => {
                let line = slice_chars(s, pos, s.len());
                assert(line@ =~= rest);
                proof {
                    assert(s@.skip(s@.len() as int) =~= Seq::<char>::empty());
                    assert(lines(rest) == seq![rest]);
                    let old_acc = acc;
                    acc = acc.push(rest);
                    assert(old_acc + seq![rest] =~= acc + lines(s@.skip(s@.len() as int)));
                }
                r.push(line);
                pos = s.len();
            },
        }
    }
    assert(s@.skip(pos as int) =~= Seq::<char>::empty());
    assert(acc + lines(s@.skip(pos as int)) =~= acc);
    r
}

/// What `str::split` with one character gives, as vectors.
pub fn split_char_exec(s: &[char], c: char) -> (r: Vec<Vec<char>>)
    ensures
        r@.len() == split_char(s@, c).len(),
        forall|k: int| 0 <= k < r@.len() ==> #[trigger] r@[k]@ == split_char(s@, c)[k],
{
    let mut r: Vec<Vec<char>> = Vec::new();
    let mut pos: usize = 0;
    let ghost acc: Seq<Seq<char>> = seq![];
    assert(s@.skip(0) =~= s@);
    assert(acc + split_char(s@, c) =~= split_char(s@, c));
    loop
        invariant
            0 <= pos <= s@.len(),
            r@.len() == acc.len(),
            forall|k: int| 0 <= k < r@.len() ==> #[trigger] r@[k]@ == acc[k],
            split_char(s@, c) == acc + split_char(s@.skip(pos as int), c),
        decreases s.len() - pos,
    {
        let ghost rest = s@.skip(pos as int);
        proof {
            lemma_find_char_shift(s@, c, pos as int, 0);
        }
        match find_char_exec(s, c, pos) {
            Some(i) => {
                let piece = slice_chars(s, pos, i);
                assert(piece@ =~= rest.take(i - pos));
                proof {
                    assert(rest.skip(i - pos + 1) =~= s@.skip(i + 1));
                    assert(split_char(rest, c) == seq![rest.take(i - pos)] + split_char(rest.skip(i - pos + 1), c));
                    let old_acc = acc;
                    acc = acc.push(rest.take(i - pos));
                    assert(old_acc + (seq![rest.take(i - pos)] + split_char(s@.skip(i + 1), c)) =~= acc + split_char(s@.skip(i + 1), c));
                }
                r.push(piece);
                pos = i + 1;
            },
            None => {
                let piece = slice_chars(s, pos, s.len());
                assert(piece@ =~= rest);
                proof {
                    assert(split_char(rest, c) == seq![rest]);
                    acc = acc.push(rest);
                    assert(split_char(s@, c) =~= acc);
                }
                r.push(piece);
                return r;
            },
        }
    }
}

pub fn push_all(out: &mut Vec<char>, s: &[char])
    ensures
        final(out)@ == old(out)@ + s@,
{
    let ghost start = out@;
    let mut i: usize = 0;
    while i < s.len()
        invariant
            0 <= i <= s@.len(),
            out@ == start + s@.take(i as int),
        decreases s.len() - i,
    {
        out.push(s[i]);
        assert(s@.take(i + 1) =~= s@.take(i as int).push(s@[i as int]));
        i += 1;
    }
    assert(s@.take(s@.len() as int) =~= s@);
}

pub fn concat(a: &[char], b: &[char]) -> (r: Vec<char>)
    ensures
        r@ == a@ + b@,
{
    let mut r = slice_chars(a, 0, a.len());
    assert(a@.subrange(0, a@.len() as int) =~= a@);
    push_all(&mut r, b);
    r
}

/// `parts` joined with `sep`.
pub fn join_exec(parts: &Vec<Vec<char>>, sep: &[char]) -> (r: Vec<char>)
    ensures
        r@ == join(parts@.map_values(|p: Vec<char>| p@), sep@),
{
    let ghost ps = parts@.map_values(|p: Vec<char>| p@);
    let mut r: Vec<char> = Vec::new();
    let mut i: usize = 0;
    while i < parts.len()
        invariant
            0 <= i <= parts@.len(),
            ps == parts@.map_values(|p: Vec<char>| p@),
            r@ == join(ps.take(i as int), sep@),
        decreases parts.len() - i,
    {
        if i > 0 {
            push_all(&mut r, sep);
        }
        push_all(&mut r, &parts[i]);
        proof {
            assert(ps.take(i + 1).drop_last() =~= ps.take(i as int));
            if i == 0 {
                assert(ps.take(1) =~= seq![ps[0]]);
            }
        }
        i += 1;
    }
    assert(ps.take(parts@.len() as int) =~= ps);
    r
}

pub fn ascii_lower_exec(s: &[char]) -> (r: Vec<char>)
    ensures
        r@ == ascii_lower_seq(s@),
{
    let mut r: Vec<char> = Vec::new();
    let mut i: usize = 0;
    while i < s.len()
        invariant
            0 <= i <= s@.len(),
            r@ == ascii_lower_seq(s@.take(i as int)),
        decreases s.len() - i,
    {
        let c = s[i];
        let l = if 'A' <= c && c <= 'Z' {
            char_from_u32_ascii((c as u32) + 32)
        } else {
            c
        };
        r.push(l);
        assert(ascii_lower_seq(s@.take(i + 1)) =~= ascii_lower_seq(s@.take(i as int)).push(
            ascii_lower(s@[i as int]),
        ));
        i += 1;
    }
    assert(s@.take(s@.len() as int) =~= s@);
    r
}

/// The character with an ASCII code point.
pub fn char_from_u32_ascii(u: u32) -> (c: char)
    requires
        u < 128,
    ensures
        c as u32 == u,
        c == u as char,
{
    let b = u as u8;
    b as char
}


// ───────────────────────── ordering ─────────────────────────

/// The order of `String`'s `Ord`: byte-wise on UTF-8, which is code-point order.
pub open spec fn seq_lt(a: Seq<char>, b: Seq<char>) -> bool
    decreases a.len(),
{
    if a.len() == 0 {
        b.len() > 0
    } else if b.len() == 0 {
        false
    } else if a[0] == b[0] {
        seq_lt(a.drop_first(), b.drop_first())
    } else {
        a[0] < b[0]
    }
}

pub proof fn lemma_seq_lt_irreflexive(a: Seq<char>)
    ensures
        !seq_lt(a, a),
    decreases a.len(),
{
    if a.len() > 0 {
        lemma_seq_lt_irreflexive(a.drop_first());
    }
}

pub proof fn lemma_seq_lt_transitive(a: Seq<char>, b: Seq<char>, c: Seq<char>)
    requires
        seq_lt(a, b),
        seq_lt(b, c),
    ensures
        seq_lt(a, c),
    decreases a.len(),
{
    if a.len() > 0 && b.len() > 0 && c.len() > 0 {
        if a[0] == b[0] && b[0] == c[0] {
            lemma_seq_lt_transitive(a.drop_first(), b.drop_first(), c.drop_first());
        }
    }
}

pub proof fn lemma_seq_lt_total(a: Seq<char>, b: Seq<char>)
    ensures
        a == b || seq_lt(a, b) || seq_lt(b, a),
    decreases a.len(),
{
    if a.len() > 0 && b.len() > 0 {
        if a[0] == b[0] {
            lemma_seq_lt_total(a.drop_first(), b.drop_first());
            if a.drop_first() == b.drop_first() {
                assert(a =~= seq![a[0]] + a.drop_first());
                assert(b =~= seq![b[0]] + b.drop_first());
            }
        }
    } else if a.len() == 0 && b.len() == 0 {
        assert(a =~= b);
    }
}

pub proof fn lemma_seq_lt_asymmetric(a: Seq<char>, b: Seq<char>)
    requires
        seq_lt(a, b),
    ensures
        !seq_lt(b, a),
{
    if seq_lt(b, a) {
        lemma_seq_lt_transitive(a, b, a);
        lemma_seq_lt_irreflexive(a);
    }
}

pub fn chars_lt(a: &[char], b: &[char]) -> (r: bool)
    ensures
        r == seq_lt(a@, b@),
{
    let mut i: usize = 0;
    assert(a@.skip(0) =~= a@);
    assert(b@.skip(0) =~= b@);
    while i < a.len() && i < b.len() && a[i] == b[i]
        invariant
            0 <= i <= a@.len(),
            i <= b@.len(),
            seq_lt(a@, b@) == seq_lt(a@.skip(i as int), b@.skip(i as int)),
        decreases a.len() - i,
    {
        assert(a@.skip(i as int).drop_first() =~= a@.skip(i + 1));
        assert(b@.skip(i as int).drop_first() =~= b@.skip(i + 1));
        i += 1;
    }
    if i == a.len() {
        i < b.len()
    } else if i == b.len() {
        false
    } else {
        a[i] < b[i]
    }
}

/// Strictly increasing in `seq_lt`.
pub open spec fn strictly_sorted(s: Seq<Seq<char>>) -> bool {
    forall|i: int, j: int| 0 <= i < j < s.len() ==> seq_lt(#[trigger] s[i], #[trigger] s[j])
}

// ───────────────────────── decimal numbers ─────────────────────────

pub open spec fn digit(d: nat) -> char {
    (48 + d) as char
}

/// What `Display` writes for an unsigned integer.
pub open spec fn dec(n: nat) -> Seq<char>
    decreases n,
{
    if n < 10 {
        seq![digit(n)]
    } else {
        dec(n / 10).push(digit(n % 10))
    }
}

pub fn fmt_u64(n: u64) -> (r: Vec<char>)
    ensures
        r@ == dec(n as nat),
    decreases n,
{
    if n < 10 {
        let mut r: Vec<char> = Vec::new();
        r.push(char_from_u32_ascii(48 + (n as u32)));
        assert(r@ =~= seq![digit(n as nat)]);
        r
    } else {
        let mut r = fmt_u64(n / 10);
        r.push(char_from_u32_ascii(48 + ((n % 10) as u32)));
        r
    }
}

pub fn fmt_usize(n: usize) -> (r: Vec<char>)
    ensures
        r@ == dec(n as nat),
{
    fmt_u64(n as u64)
}


// ───────────────────────── replacing and stripping ─────────────────────────

/// `s` with every `from` replaced by `to`.
pub open spec fn replace_char(s: Seq<char>, from: char, to: char) -> Seq<char> {
    s.map_values(|c: char| if c == from { to } else { c })
}

pub fn replace_char_exec(s: &[char], from: char, to: char) -> (r: Vec<char>)
    ensures
        r@ == replace_char(s@, from, to),
{
    let mut r: Vec<char> = Vec::new();
    let mut i: usize = 0;
    while i < s.len()
        invariant
            0 <= i <= s@.len(),
            r@ == replace_char(s@.take(i as int), from, to),
        decreases s.len() - i,
    {
        let c = s[i];
        r.push(if c == from { to } else { c });
        assert(replace_char(s@.take(i + 1), from, to) =~= replace_char(s@.take(i as int), from, to).push(
            if s@[i as int] == from { to } else { s@[i as int] },
        ));
        i += 1;
    }
    assert(s@.take(s@.len() as int) =~= s@);
    r
}

/// What `str::trim_end_matches` with a non-empty string pattern gives:
/// every trailing copy of `pat` removed.
pub open spec fn trim_end_str(s: Seq<char>, pat: Seq<char>) -> Seq<char>
    decreases s.len(),
{
    if pat.len() > 0 && is_suffix(pat, s) {
        trim_end_str(s.take(s.len() - pat.len()), pat)
    } else {
        s
    }
}

pub fn trim_end_str_exec(s: &[char], pat: &[char]) -> (r: Vec<char>)
    ensures
        r@ == trim_end_str(s@, pat@),
{
    let mut cur = slice_chars(s, 0, s.len());
    assert(cur@ =~= s@);
    if pat.len() == 0 {
        return cur;
    }
    while ends_with(&cur, pat)
        invariant
            pat@.len() > 0,
            trim_end_str(s@, pat@) == trim_end_str(cur@, pat@),
        decreases cur@.len(),
    {
        let n = cur.len() - pat.len();
        cur = slice_chars(&cur, 0, n);
    }
    cur
}

/// The characters of `s` before the first `c` and after it, if `s` has one.
pub open spec fn split_once(s: Seq<char>, c: char) -> Option<(Seq<char>, Seq<char>)> {
    match find_char_from(s, c, 0) {
        Some(i) => Some((s.take(i), s.skip(i + 1))),
        None => None,
    }
}

pub fn split_once_exec(s: &[char], c: char) -> (r: Option<(Vec<char>, Vec<char>)>)
    ensures
        match r {
            Some(p) => split_once(s@, c) == Some((p.0@, p.1@)),
            None => split_once(s@, c) is None,
        },
{
    match find_char_exec(s, c, 0) {
        Some(i) => {
            let a = slice_chars(s, 0, i);
            let b = slice_chars(s, i + 1, s.len());
            assert(a@ =~= s@.take(i as int));
            assert(b@ =~= s@.skip(i + 1));
            Some((a, b))
        },
        None => None,
    }
}


/// What `str::split_whitespace` gives, as vectors.
pub fn words_exec(s: &[char]) -> (r: Vec<Vec<char>>)
    ensures
        keys_of(r@) == words(s@),
{
    let mut r: Vec<Vec<char>> = Vec::new();
    let mut cur = slice_chars(s, 0, s.len());
    assert(cur@ =~= s@);
    assert(keys_of(r@) + words(cur@) =~= words(s@));
    loop
        invariant
            words(s@) == keys_of(r@) + words(cur@),
        decreases cur@.len(),
    {
        let t = trim_start_exec(&cur);
        proof {
            lemma_trim_start_suffix(cur@);
        }
        if t.len() == 0 {
            assert(words(cur@) =~= Seq::<Seq<char>>::empty());
            assert(keys_of(r@) + words(cur@) =~= keys_of(r@));
            return r;
        }
        let mut n: usize = 0;
        proof {
            lemma_word_len(t@, 0);
        }
        while n < t.len() && !is_ws_char(t[n])
            invariant
                0 <= n <= t@.len(),
                word_len(t@, 0) == word_len(t@, n as int),
            decreases t.len() - n,
        {
            n += 1;
        }
        let w = slice_chars(&t, 0, n);
        let rest = slice_chars(&t, n, t.len());
        assert(w@ =~= t@.take(n as int));
        assert(rest@ =~= t@.skip(n as int));
        let ghost before = keys_of(r@);
        r.push(w);
        assert(keys_of(r@) =~= before.push(w@));
        assert(words(cur@) == seq![t@.take(n as int)] + words(t@.skip(n as int)));
        assert(before + words(cur@) =~= keys_of(r@) + words(rest@));
        cur = rest;
    }
}

pub open spec fn keys_of(v: Seq<Vec<char>>) -> Seq<Seq<char>> {
    v.map_values(|x: Vec<char>| x@)
}


pub open spec fn keys_view(v: Seq<Vec<char>>) -> Seq<Seq<char>> {
    v.map_values(|x: Vec<char>| x@)
}

/// Inserts `k` into the strictly sorted `keys` unless it is there already.
pub fn insert_sorted(keys: &mut Vec<Vec<char>>, k: &Vec<char>)
    requires
        strictly_sorted(keys_view(old(keys)@)),
    ensures
        strictly_sorted(keys_view(final(keys)@)),
        forall|x: Seq<char>|
            #[trigger] keys_view(final(keys)@).contains(x) <==> (keys_view(old(keys)@).contains(x) || x == k@),
{
    let ghost ks = keys_view(keys@);
    let mut i: usize = 0;
    while i < keys.len() && chars_lt(&keys[i], k)
        invariant
            0 <= i <= keys@.len(),
            ks == keys_view(keys@),
            keys@ == old(keys)@,
            forall|j: int| 0 <= j < i ==> seq_lt(#[trigger] ks[j], k@),
        decreases keys.len() - i,
    {
        i += 1;
    }
    if i < keys.len() && chars_eq(&keys[i], k) {
        assert(ks.contains(k@)) by {
            assert(ks[i as int] == k@);
        }
        return;
    }
    if i < keys.len() {
        proof {
            lemma_seq_lt_total(ks[i as int], k@);
        }
    }
    let kk = slice_chars(k, 0, k.len());
    assert(kk@ =~= k@);
    keys.insert(i, kk);
    proof {
        let nks = keys_view(keys@);
        assert(nks =~= ks.insert(i as int, k@));
        if i < ks.len() {
            assert(seq_lt(k@, ks[i as int]));
        }
        assert forall|a: int, b: int| 0 <= a < b < nks.len() implies seq_lt(
            #[trigger] nks[a],
            #[trigger] nks[b],
        ) by {
            if b < i {
                assert(nks[a] == ks[a] && nks[b] == ks[b]);
            } else if b == i {
                assert(nks[a] == ks[a] && nks[b] == k@);
            } else if a < i {
                assert(nks[a] == ks[a] && nks[b] == ks[b - 1]);
            } else if a == i {
                assert(nks[a] == k@ && nks[b] == ks[b - 1]);
                if b - 1 > i {
                    assert(seq_lt(ks[i as int], ks[b - 1]));
                    lemma_seq_lt_transitive(k@, ks[i as int], ks[b - 1]);
                }
            } else {
                assert(nks[a] == ks[a - 1] && nks[b] == ks[b - 1]);
            }
        }
        assert forall|x: Seq<char>| nks.contains(x) <==> (ks.contains(x) || x == k@) by {
            if nks.contains(x) {
                let j = choose|j: int| 0 <= j < nks.len() && nks[j] == x;
                if j < i {
                    assert(ks[j] == x);
                } else if j > i {
                    assert(ks[j - 1] == x);
                }
            }
            if ks.contains(x) {
                let j = choose|j: int| 0 <= j < ks.len() && ks[j] == x;
                if j < i {
                    assert(nks[j] == x);
                } else {
                    assert(nks[j + 1] == x);
                }
            }
            if x == k@ {
                assert(nks[i as int] == x);
            }
        }
    }
}



pub proof fn lemma_words_len(s: Seq<char>)
    ensures
        words(s).len() <= s.len(),
    decreases s.len(),
{
    let t = trim_start(s);
    lemma_trim_start_suffix(s);
    if t.len() > 0 {
        let n = word_len(t, 0);
        lemma_word_len(t, 0);
        lemma_words_len(t.skip(n));
    }
}


pub proof fn lemma_split_char_nonempty(s: Seq<char>, c: char)
    ensures
        split_char(s, c).len() >= 1,
{
    match find_char_from(s, c, 0) {
        Some(i) => {},
        None => {},
    }
}


pub open spec fn strs(v: Seq<String>) -> Seq<Seq<char>> {
    v.map_values(|s: String| s@)
}

/// Each character vector as a `String`.
pub fn to_strings(v: &Vec<Vec<char>>) -> (r: Vec<String>)
    ensures
        strs(r@) == keys_view(v@),
{
    let mut r: Vec<String> = Vec::new();
    let mut i: usize = 0;
    while i < v.len()
        invariant
            0 <= i <= v@.len(),
            strs(r@) == keys_view(v@).take(i as int),
        decreases v.len() - i,
    {
        let ghost before = strs(r@);
        r.push(string_of(&v[i]));
        assert(strs(r@) =~= before.push(v@[i as int]@));
        assert(strs(r@) =~= keys_view(v@).take(i + 1));
        i += 1;
    }
    assert(keys_view(v@).take(v@.len() as int) =~= keys_view(v@));
    r
}

/// Each `String` as a character vector.
pub fn to_char_vecs(v: &Vec<String>) -> (r: Vec<Vec<char>>)
    ensures
        keys_view(r@) == strs(v@),
{
    let mut r: Vec<Vec<char>> = Vec::new();
    let mut i: usize = 0;
    while i < v.len()
        invariant
            0 <= i <= v@.len(),
            keys_view(r@) == strs(v@).take(i as int),
        decreases v.len() - i,
    {
        let ghost before = keys_view(r@);
        r.push(chars_of(v[i].as_str()));
        assert(keys_view(r@) =~= before.push(v@[i as int]@));
        assert(keys_view(r@) =~= strs(v@).take(i + 1));
        i += 1;
    }
    assert(strs(v@).take(v@.len() as int) =~= strs(v@));
    r
}


// ───────────────────────── bytes ─────────────────────────

/// Bytes that `c` takes in UTF-8.
pub open spec fn utf8_len(c: char) -> nat {
    let u = c as u32;
    if u < 0x80 {
        1
    } else if u < 0x800 {
        2
    } else if u < 0x10000 {
        3
    } else {
        4
    }
}

/// Bytes that `s` takes in UTF-8: what `str::len` gives.
pub open spec fn byte_len(s: Seq<char>) -> nat
    decreases s.len(),
{
    if s.len() == 0 {
        0
    } else {
        byte_len(s.drop_last()) + utf8_len(s.last())
    }
}

/// `n` bytes into `s` fall on a character boundary, after `k` characters.
pub open spec fn boundary_at(s: Seq<char>, n: int, k: int) -> bool {
    0 <= k <= s.len() && byte_len(s.take(k)) == n
}

/// The characters in the first `n` bytes of `s`, when `n` falls on a
/// character boundary: what `&s[..n]` gives (it panics otherwise).
pub open spec fn byte_prefix(s: Seq<char>, n: int) -> Option<Seq<char>> {
    if exists|k: int| boundary_at(s, n, k) {
        Some(s.take(choose|k: int| boundary_at(s, n, k)))
    } else {
        None
    }
}

/// What `&s[a..b]` gives, when both ends fall on character boundaries and
/// `a <= b` (it panics otherwise).
pub open spec fn byte_slice(s: Seq<char>, a: int, b: int) -> Option<Seq<char>> {
    match (byte_prefix(s, a), byte_prefix(s, b)) {
        (Some(p), Some(q)) => if a <= b {
            Some(q.skip(p.len() as int))
        } else {
            None
        },
        _ => None,
    }
}

pub proof fn lemma_byte_len_take(s: Seq<char>, k: int)
    requires
        0 <= k < s.len(),
    ensures
        byte_len(s.take(k + 1)) == byte_len(s.take(k)) + utf8_len(s[k]),
        byte_len(s.take(k)) < byte_len(s.take(k + 1)),
{
    assert(s.take(k + 1).drop_last() =~= s.take(k));
}

pub proof fn lemma_byte_len_mono(s: Seq<char>, a: int, b: int)
    requires
        0 <= a <= b <= s.len(),
    ensures
        a < b ==> byte_len(s.take(a)) < byte_len(s.take(b)),
        byte_len(s.take(a)) <= byte_len(s.take(b)),
    decreases b - a,
{
    if a < b {
        lemma_byte_len_take(s, b - 1);
        lemma_byte_len_mono(s, a, b - 1);
    }
}

pub proof fn lemma_boundary_unique(s: Seq<char>, n: int, k: int)
    requires
        boundary_at(s, n, k),
    ensures
        byte_prefix(s, n) == Some(s.take(k)),
{
    let j = choose|j: int| boundary_at(s, n, j);
    if j < k {
        lemma_byte_len_mono(s, j, k);
    } else if k < j {
        lemma_byte_len_mono(s, k, j);
    }
}

fn utf8_len_exec(c: char) -> (n: usize)
    ensures
        n == utf8_len(c),
{
    let u = c as u32;
    if u < 0x80 {
        1
    } else if u < 0x800 {
        2
    } else if u < 0x10000 {
        3
    } else {
        4
    }
}

/// How many characters fill the first `n` bytes of `s`, if `n` falls on a
/// character boundary.
pub fn chars_in_bytes(s: &[char], n: usize) -> (r: Option<usize>)
    ensures
        match r {
            Some(k) => boundary_at(s@, n as int, k as int),
            None => !exists|k: int| boundary_at(s@, n as int, k),
        },
{
    let mut i: usize = 0;
    let mut b: usize = 0;
    assert(s@.take(0) =~= Seq::<char>::empty());
    while i < s.len() && b < n
        invariant
            0 <= i <= s@.len(),
            b == byte_len(s@.take(i as int)),
            forall|k: int| 0 <= k < i ==> byte_len(s@.take(k)) < n,
        decreases s.len() - i,
    {
        proof {
            lemma_byte_len_take(s@, i as int);
        }
        let c = utf8_len_exec(s[i]);
        if c > n - b {
            proof {
                assert forall|k: int| !boundary_at(s@, n as int, k) by {
                    if 0 <= k <= s@.len() && k > i {
                        lemma_byte_len_mono(s@, i + 1, k);
                    }
                }
            }
            return None;
        }
        b = b + c;
        i += 1;
    }
    if b == n {
        Some(i)
    } else {
        proof {
            assert forall|k: int| !boundary_at(s@, n as int, k) by {
                if 0 <= k <= s@.len() {
                    if k > i {
                        lemma_byte_len_mono(s@, i as int, k);
                    } else if k < i {
                    } else {
                    }
                    if b < n {
                        assert(i == s@.len());
                        lemma_byte_len_mono(s@, k, i as int);
                    }
                }
            }
        }
        None
    }
}

/// What `&s[..n]` gives, if `n` falls on a character boundary.
pub fn byte_prefix_exec(s: &[char], n: usize) -> (r: Option<Vec<char>>)
    ensures
        match r {
            Some(p) => byte_prefix(s@, n as int) == Some(p@),
            None => byte_prefix(s@, n as int) is None,
        },
{
    match chars_in_bytes(s, n) {
        Some(k) => {
            proof {
                lemma_boundary_unique(s@, n as int, k as int);
            }
            Some(slice_chars(s, 0, k))
        },
        None => None,
    }
}

/// What `&s[a..b]` gives, if both ends fall on character boundaries and
/// `a <= b`.
pub fn byte_slice_exec(s: &[char], a: usize, b: usize) -> (r: Option<Vec<char>>)
    ensures
        match r {
            Some(p) => byte_slice(s@, a as int, b as int) == Some(p@),
            None => byte_slice(s@, a as int, b as int) is None,
        },
{
    match (chars_in_bytes(s, a), chars_in_bytes(s, b)) {
        (Some(i), Some(j)) => {
            proof {
                lemma_boundary_unique(s@, a as int, i as int);
                lemma_boundary_unique(s@, b as int, j as int);
            }
            if a <= b {
                if i > j {
                    proof {
                        lemma_byte_len_mono(s@, j as int, i as int);
                    }
                }
                let r = slice_chars(s, i, j);
                assert(r@ =~= s@.take(j as int).skip(s@.take(i as int).len() as int));
                Some(r)
            } else {
                None
            }
        },
        _ => None,
    }
}

/// `min(byte_len(s), cap)`: the byte length, counted no further than `cap`.
pub fn byte_len_upto(s: &[char], cap: usize) -> (r: usize)
    ensures
        r == if byte_len(s@) < cap {
            byte_len(s@)
        } else {
            cap as nat
        },
{
    let mut i: usize = 0;
    let mut b: usize = 0;
    assert(s@.take(0) =~= Seq::<char>::empty());
    while i < s.len() && b < cap
        invariant
            0 <= i <= s@.len(),
            b == byte_len(s@.take(i as int)),
        decreases s.len() - i,
    {
        proof {
            lemma_byte_len_take(s@, i as int);
        }
        let c = utf8_len_exec(s[i]);
        if c > cap - b {
            proof {
                lemma_byte_len_mono(s@, i + 1, s@.len() as int);
                assert(s@.take(s@.len() as int) =~= s@);
            }
            return cap;
        }
        b = b + c;
        i += 1;
    }
    assert(s@.take(s@.len() as int) =~= s@);
    if b < cap {
        b
    } else {
        proof {
            lemma_byte_len_mono(s@, i as int, s@.len() as int);
        }
        cap
    }
}

// ───────────────────────── integers in text ─────────────────────────

pub open spec fn is_ascii_digit(c: char) -> bool {
    '0' <= c && c <= '9'
}

/// One or more ASCII digits and nothing else.
pub open spec fn all_digits(s: Seq<char>) -> bool {
    s.len() > 0 && forall|i: int| 0 <= i < s.len() ==> is_ascii_digit(#[trigger] s[i])
}

/// The value of a run of ASCII digits.
pub open spec fn digits_value(s: Seq<char>) -> nat
    decreases s.len(),
{
    if s.len() == 0 {
        0
    } else {
        digits_value(s.drop_last()) * 10 + ((s.last() as nat) - 48) as nat
    }
}

/// What the integer `FromStr` impls read: an optional `+` (or `-` when
/// `signed`) and at least one ASCII digit, nothing else; the value before
/// any range check.
pub open spec fn int_text(s: Seq<char>, signed: bool) -> Option<int> {
    if s.len() > 0 && s[0] == '+' {
        if all_digits(s.drop_first()) {
            Some(digits_value(s.drop_first()) as int)
        } else {
            None
        }
    } else if s.len() > 0 && s[0] == '-' {
        if signed && all_digits(s.drop_first()) {
            Some(-(digits_value(s.drop_first()) as int))
        } else {
            None
        }
    } else if all_digits(s) {
        Some(digits_value(s) as int)
    } else {
        None
    }
}

/// What `str::parse` gives for an integer type with range `min..=max`.
pub open spec fn parse_int_spec(s: Seq<char>, signed: bool, min: int, max: int) -> Option<int> {
    match int_text(s, signed) {
        Some(v) => if min <= v <= max {
            Some(v)
        } else {
            None
        },
        None => None,
    }
}

proof fn lemma_digits_value_grows(s: Seq<char>, i: int)
    requires
        0 <= i < s.len(),
        forall|j: int| 0 <= j < s.len() ==> is_ascii_digit(#[trigger] s[j]),
    ensures
        digits_value(s.take(i)) <= digits_value(s.take(i + 1)),
        digits_value(s.take(i + 1)) == digits_value(s.take(i)) * 10 + ((s[i] as nat) - 48),
{
    assert(s.take(i + 1).drop_last() =~= s.take(i));
}

proof fn lemma_digits_value_mono(s: Seq<char>, a: int, b: int)
    requires
        0 <= a <= b <= s.len(),
        forall|j: int| 0 <= j < s.len() ==> is_ascii_digit(#[trigger] s[j]),
    ensures
        digits_value(s.take(a)) <= digits_value(s.take(b)),
    decreases b - a,
{
    if a < b {
        lemma_digits_value_grows(s, b - 1);
        lemma_digits_value_mono(s, a, b - 1);
    }
}

/// The value of a run of digits, or `None` if there are none or it is not
/// below `2^32`.
fn digits_u32(s: &[char]) -> (r: Option<u64>)
    ensures
        match r {
            Some(v) => all_digits(s@) && v == digits_value(s@) && v < 0x1_0000_0000,
            None => !all_digits(s@) || digits_value(s@) >= 0x1_0000_0000,
        },
{
    if s.len() == 0 {
        return None;
    }
    let mut i: usize = 0;
    let mut acc: u64 = 0;
    assert(s@.take(0) =~= Seq::<char>::empty());
    while i < s.len()
        invariant
            0 <= i <= s@.len(),
            acc == digits_value(s@.take(i as int)),
            acc < 0x1_0000_0000,
            forall|j: int| 0 <= j < i ==> is_ascii_digit(#[trigger] s@[j]),
        decreases s.len() - i,
    {
        let c = s[i];
        if !('0' <= c && c <= '9') {
            return None;
        }
        proof {
            assert(s@.take(i + 1).drop_last() =~= s@.take(i as int));
        }
        let d = (c as u32 - 48) as u64;
        acc = acc * 10 + d;
        if acc >= 0x1_0000_0000 {
            proof {
                if all_digits(s@) {
                    lemma_digits_value_mono(s@, i + 1, s@.len() as int);
                    assert(s@.take(s@.len() as int) =~= s@);
                }
            }
            return None;
        }
        i += 1;
    }
    assert(s@.take(s@.len() as int) =~= s@);
    Some(acc)
}

/// What `str::parse::<i32>` gives.
pub fn parse_i32(s: &[char]) -> (r: Option<i32>)
    ensures
        match r {
            Some(v) => parse_int_spec(s@, true, i32::MIN as int, i32::MAX as int) == Some(v as int),
            None => parse_int_spec(s@, true, i32::MIN as int, i32::MAX as int) is None,
        },
{
    if s.len() > 0 && (s[0] == '+' || s[0] == '-') {
        let rest = slice_chars(s, 1, s.len());
        assert(rest@ =~= s@.drop_first());
        match digits_u32(&rest) {
            Some(v) => {
                if s[0] == '+' {
                    if v <= 0x7fff_ffff {
                        Some(v as i32)
                    } else {
                        None
                    }
                } else if v <= 0x8000_0000 {
                    Some((0 - (v as i64)) as i32)
                } else {
                    None
                }
            },
            None => None,
        }
    } else {
        match digits_u32(s) {
            Some(v) => if v <= 0x7fff_ffff {
                Some(v as i32)
            } else {
                None
            },
            None => None,
        }
    }
}

/// What `str::parse::<u32>` gives.
pub fn parse_u32(s: &[char]) -> (r: Option<u32>)
    ensures
        match r {
            Some(v) => parse_int_spec(s@, false, 0, u32::MAX as int) == Some(v as int),
            None => parse_int_spec(s@, false, 0, u32::MAX as int) is None,
        },
{
    if s.len() > 0 && s[0] == '-' {
        return None;
    }
    if s.len() > 0 && s[0] == '+' {
        let rest = slice_chars(s, 1, s.len());
        assert(rest@ =~= s@.drop_first());
        match digits_u32(&rest) {
            Some(v) => Some(v as u32),
            None => None,
        }
    } else {
        match digits_u32(s) {
            Some(v) => Some(v as u32),
            None => None,
        }
    }
}

// ───────────────────────── sorted listings ─────────────────────────

/// Two strictly increasing listings of the same elements are the same.
pub proof fn lemma_strictly_sorted_unique(x: Seq<Seq<char>>, y: Seq<Seq<char>>)
    requires
        strictly_sorted(x),
        strictly_sorted(y),
        forall|e: Seq<char>| x.contains(e) <==> y.contains(e),
    ensures
        x == y,
    decreases x.len(),
{
    if x.len() == 0 {
        if y.len() > 0 {
            assert(y.contains(y[0]));
        }
        assert(x =~= y);
    } else {
        assert(x.contains(x[0]));
        if y.len() == 0 {
            assert(false);
        }
        assert(y.contains(y[0]));
        let j = choose|j: int| 0 <= j < y.len() && y[j] == x[0];
        let i = choose|i: int| 0 <= i < x.len() && x[i] == y[0];
        if j > 0 {
            assert(seq_lt(y[0], y[j]));
            if i > 0 {
                assert(seq_lt(x[0], x[i]));
                lemma_seq_lt_asymmetric(x[0], x[i]);
            } else {
                lemma_seq_lt_irreflexive(x[0]);
            }
        }
        assert(y[0] == x[0]);
        let xr = x.drop_first();
        let yr = y.drop_first();
        assert forall|e: Seq<char>| xr.contains(e) <==> yr.contains(e) by {
            if xr.contains(e) {
                let a = choose|a: int| 0 <= a < xr.len() && xr[a] == e;
                assert(x[a + 1] == e);
                assert(seq_lt(x[0], x[a + 1]));
                assert(y.contains(e));
                let b = choose|b: int| 0 <= b < y.len() && y[b] == e;
                if b == 0 {
                    lemma_seq_lt_irreflexive(e);
                }
                assert(yr[b - 1] == e);
            }
            if yr.contains(e) {
                let a = choose|a: int| 0 <= a < yr.len() && yr[a] == e;
                assert(y[a + 1] == e);
                assert(seq_lt(y[0], y[a + 1]));
                assert(x.contains(e));
                let b = choose|b: int| 0 <= b < x.len() && x[b] == e;
                if b == 0 {
                    lemma_seq_lt_irreflexive(e);
                }
                assert(xr[b - 1] == e);
            }
        }
        lemma_strictly_sorted_unique(xr, yr);
        assert(x =~= y) by {
            assert(x =~= seq![x[0]] + xr);
            assert(y =~= seq![y[0]] + yr);
        }
    }
}


/// Taking one more element of a sequence adds just that element.
pub proof fn lemma_take_one_more<A>(s: Seq<A>, i: int)
    requires
        0 <= i < s.len(),
    ensures
        s.take(i + 1) == s.take(i).push(s[i]),
        forall|x: A| #[trigger] s.take(i + 1).contains(x) <==> (s.take(i).contains(x) || x == s[i]),
        s.take(i + 1).to_set() == s.take(i).to_set().insert(s[i]),
{
    let a = s.take(i);
    let b = s.take(i + 1);
    assert(b =~= a.push(s[i]));
    assert forall|x: A| #[trigger] b.contains(x) <==> (a.contains(x) || x == s[i]) by {
        if b.contains(x) {
            let q = choose|q: int| 0 <= q < b.len() && b[q] == x;
            if q < i {
                assert(a[q] == x);
            }
        }
        if a.contains(x) {
            let q = choose|q: int| 0 <= q < a.len() && a[q] == x;
            assert(b[q] == x);
        }
        if x == s[i] {
            assert(b[i] == x);
        }
    }
    assert(b.to_set() =~= a.to_set().insert(s[i]));
}
} // verus!
