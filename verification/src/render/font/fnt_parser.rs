//! Parser of the text form of AngelCode BMFont files (`.fnt`).

use vstd::prelude::*;

use std::collections::HashMap;

verus! {

broadcast use vstd::string::axiom_spec_iter, vstd::std_specs::hash::group_hash_axioms;

/// A single character glyph in a bitmap font.
#[derive(Debug, Clone, Copy, PartialEq, Eq, Structural)]
pub struct BitmapGlyph {
    /// Character code point.
    pub id: u32,
    /// X position in the texture page.
    pub x: u32,
    /// Y position in the texture page.
    pub y: u32,
    /// Width of the glyph in the texture.
    pub width: u32,
    /// Height of the glyph in the texture.
    pub height: u32,
    /// X offset for rendering.
    pub xoffset: i32,
    /// Y offset for rendering.
    pub yoffset: i32,
    /// Advance width after rendering this glyph.
    pub xadvance: i32,
    /// Texture page index.
    pub page: u32,
}

/// Parsed bitmap font data.
#[derive(Debug, Clone)]
pub struct BitmapFont {
    /// Font face name.
    pub face: String,
    /// Font size.
    pub size: u32,
    /// Line height.
    pub line_height: u32,
    /// Base offset from top of line.
    pub base: u32,
    /// Texture page file names.
    pub pages: Vec<String>,
    /// Character glyphs indexed by code point.
    pub glyphs: HashMap<u32, BitmapGlyph>,
    /// Kerning amounts, keyed by `kerning_key(first, second)`.
    pub kernings: HashMap<u64, i32>,
}

/// The key of a kerning pair: the first character in the high 32 bits, the second in
/// the low 32 bits.
pub open spec fn pair_key(first: u32, second: u32) -> u64 {
    (first as u64 * 0x1_0000_0000 + second as u64) as u64
}

/// Different pairs have different keys.
pub proof fn lemma_pair_key_unique(a1: u32, b1: u32, a2: u32, b2: u32)
    ensures
        pair_key(a1, b1) == pair_key(a2, b2) <==> (a1 == a2 && b1 == b2),
{
    assert(a1 as u64 * 0x1_0000_0000 + b1 as u64 <= u64::MAX);
    assert(a2 as u64 * 0x1_0000_0000 + b2 as u64 <= u64::MAX);
    if pair_key(a1, b1) == pair_key(a2, b2) {
        if a1 < a2 {
            assert(a1 as u64 * 0x1_0000_0000 + 0x1_0000_0000 <= a2 as u64 * 0x1_0000_0000);
        } else if a2 < a1 {
            assert(a2 as u64 * 0x1_0000_0000 + 0x1_0000_0000 <= a1 as u64 * 0x1_0000_0000);
        }
    }
}

/// The key under which the kerning of a pair is kept.
pub fn kerning_key(first: u32, second: u32) -> (r: u64)
    ensures
        r == pair_key(first, second),
{
    (first as u64) * 0x1_0000_0000 + (second as u64)
}

impl BitmapFont {
    /// The kerning amount of a pair, if the font has one.
    pub fn kerning(&self, first: u32, second: u32) -> (r: Option<i32>)
        ensures
            r == self.kernings@.get(pair_key(first, second)),
    {
        match self.kernings.get(&kerning_key(first, second)) {
            Some(v) => Some(*v),
            None => None,
        }
    }
}

/// Why a font file was refused.
#[derive(Debug, Clone, Copy, PartialEq, Eq, Structural)]
pub enum FntError {
    /// The file defines no texture page.
    NoPages,
}

impl FntError {
    /// The message of the error.
    pub fn message(&self) -> (r: String)
        ensures
            r@ == "no page definitions found in FNT file"@,
    {
        String::from_str("no page definitions found in FNT file")
    }
}

/// The characters of a text.
fn chars_of(s: &str) -> (r: Vec<char>)
    ensures
        r@ == s@,
{
    let mut r: Vec<char> = Vec::new();
    for c in it: s.chars()
        invariant
            r@ == it.seq().take(it.index() as int),
    {
        assert(it.seq().take(it.index() + 1) =~= it.seq().take(it.index() as int).push(c));
        r.push(c);
    }
    assert(r@ =~= s@);
    r
}

/// Whether a character is white space, as Rust's `char::is_whitespace` defines it
/// (the Unicode `White_Space` property).
pub open spec fn is_space(c: char) -> bool {
    let v = c as u32;
    (9 <= v <= 13) || v == 32 || v == 0x85 || v == 0xA0 || v == 0x1680 || (0x2000 <= v <= 0x200A)
        || v == 0x2028 || v == 0x2029 || v == 0x202F || v == 0x205F || v == 0x3000
}

fn space(c: char) -> (r: bool)
    ensures
        r == is_space(c),
{
    let v = c as u32;
    (9 <= v && v <= 13) || v == 32 || v == 0x85 || v == 0xA0 || v == 0x1680 || (0x2000 <= v && v
        <= 0x200A) || v == 0x2028 || v == 0x2029 || v == 0x202F || v == 0x205F || v == 0x3000
}

/// The text without leading white space.
pub open spec fn trim_start(s: Seq<char>) -> Seq<char>
    decreases s.len(),
{
    if s.len() > 0 && is_space(s[0]) {
        trim_start(s.drop_first())
    } else {
        s
    }
}

/// The text without trailing white space.
pub open spec fn trim_end(s: Seq<char>) -> Seq<char>
    decreases s.len(),
{
    if s.len() > 0 && is_space(s.last()) {
        trim_end(s.drop_last())
    } else {
        s
    }
}

/// The text without white space at either end.
pub open spec fn trim(s: Seq<char>) -> Seq<char> {
    trim_end(trim_start(s))
}

fn trim_chars(s: &Vec<char>) -> (r: Vec<char>)
    ensures
        r@ == trim(s@),
{
    let mut a: usize = 0;
    assert(s@.skip(0) =~= s@);
    while a < s.len() && space(s[a])
        invariant
            a <= s@.len(),
            trim_start(s@) == trim_start(s@.skip(a as int)),
        decreases s@.len() - a,
    {
        assert(s@.skip(a as int).drop_first() =~= s@.skip(a + 1));
        a = a + 1;
    }
    assert(trim_start(s@) == s@.skip(a as int));
    let mut b: usize = s.len();
    while b > a && space(s[b - 1])
        invariant
            a <= b <= s@.len(),
            trim_end(s@.skip(a as int)) == trim_end(s@.subrange(a as int, b as int)),
        decreases b - a,
    {
        assert(s@.subrange(a as int, b as int).drop_last() =~= s@.subrange(a as int, b - 1));
        b = b - 1;
    }
    assert(s@.skip(a as int) =~= s@.subrange(a as int, s@.len() as int));
    let mut r: Vec<char> = Vec::new();
    let mut k = a;
    while k < b
        invariant
            a <= k <= b <= s@.len(),
            r@ == s@.subrange(a as int, k as int),
        decreases b - k,
    {
        r.push(s[k]);
        assert(s@.subrange(a as int, k + 1) =~= s@.subrange(a as int, k as int).push(s@[k as int]));
        k = k + 1;
    }
    r
}

/// Whether `p` occurs in `s` at `i`.
pub open spec fn occurs_at(s: Seq<char>, p: Seq<char>, i: int) -> bool {
    0 <= i && i + p.len() <= s.len() && s.subrange(i, i + p.len()) == p
}

/// Whether `i` is the first place where `p` occurs in `s`.
pub open spec fn first_at(s: Seq<char>, p: Seq<char>, i: int) -> bool {
    occurs_at(s, p, i) && forall|j: int| 0 <= j < i ==> !#[trigger] occurs_at(s, p, j)
}

/// The first place where `p` occurs in `s`, as `str::find` gives it.
pub open spec fn find(s: Seq<char>, p: Seq<char>) -> Option<int> {
    if exists|i: int| first_at(s, p, i) {
        Some(choose|i: int| first_at(s, p, i))
    } else {
        None
    }
}

fn occurs_at_exec(s: &Vec<char>, p: &Vec<char>, i: usize) -> (r: bool)
    requires
        i + p@.len() <= s@.len(),
    ensures
        r == occurs_at(s@, p@, i as int),
{
    let n = s.len();
    let mut k: usize = 0;
    while k < p.len()
        invariant
            n == s@.len(),
            i + p@.len() <= s@.len(),
            k <= p@.len(),
            forall|j: int| 0 <= j < k ==> s@[i + j] == p@[j],
        decreases p@.len() - k,
    {
        if s[i + k] != p[k] {
            assert(s@.subrange(i as int, i + p@.len())[k as int] != p@[k as int]);
            return false;
        }
        k = k + 1;
    }
    assert(s@.subrange(i as int, i + p@.len()) =~= p@);
    true
}

fn find_exec(s: &Vec<char>, p: &Vec<char>) -> (r: Option<usize>)
    ensures
        match r {
            Some(i) => find(s@, p@) == Some(i as int),
            None => find(s@, p@) is None,
        },
{
    if p.len() == 0 {
        assert(s@.subrange(0, 0) =~= p@);
        assert(first_at(s@, p@, 0));
        let ghost c = choose|c: int| first_at(s@, p@, c);
        assert(c == 0) by {
            if c > 0 {
                assert(occurs_at(s@, p@, 0));
            }
        }
        return Some(0);
    }
    if p.len() > s.len() {
        assert(forall|i: int| !#[trigger] occurs_at(s@, p@, i));
        assert(!exists|i: int| first_at(s@, p@, i));
        return None;
    }
    let n = s.len();
    let last = n - p.len();
    let mut i: usize = 0;
    while i <= last
        invariant
            0 < p@.len() <= s@.len(),
            n == s@.len(),
            last == s@.len() - p@.len(),
            i <= last + 1,
            forall|j: int| 0 <= j < i ==> !#[trigger] occurs_at(s@, p@, j),
        decreases last + 1 - i,
    {
        if occurs_at_exec(s, p, i) {
            proof {
                assert(first_at(s@, p@, i as int));
                let c = choose|c: int| first_at(s@, p@, c);
                if c < i {
                    assert(occurs_at(s@, p@, c));
                } else if c > i {
                    assert(occurs_at(s@, p@, i as int));
                }
            }
            return Some(i);
        }
        i = i + 1;
    }
    assert forall|j: int| !#[trigger] occurs_at(s@, p@, j) by {
        if 0 <= j < i {
        } else if j >= i {
            assert(j + p@.len() > s@.len());
        }
    }
    None
}

/// The characters of `s` from `start` on.
fn tail(s: &Vec<char>, start: usize) -> (r: Vec<char>)
    requires
        start <= s@.len(),
    ensures
        r@ == s@.skip(start as int),
{
    let mut r: Vec<char> = Vec::new();
    let mut k = start;
    while k < s.len()
        invariant
            start <= k <= s@.len(),
            r@ == s@.subrange(start as int, k as int),
        decreases s@.len() - k,
    {
        r.push(s[k]);
        assert(s@.subrange(start as int, k + 1) =~= s@.subrange(start as int, k as int).push(
            s@[k as int],
        ));
        k = k + 1;
    }
    assert(s@.subrange(start as int, s@.len() as int) =~= s@.skip(start as int));
    r
}

/// The first `n` characters of `s`.
fn head(s: &Vec<char>, n: usize) -> (r: Vec<char>)
    requires
        n <= s@.len(),
    ensures
        r@ == s@.take(n as int),
{
    let mut r: Vec<char> = Vec::new();
    let mut k: usize = 0;
    while k < n
        invariant
            k <= n <= s@.len(),
            r@ == s@.take(k as int),
        decreases n - k,
    {
        r.push(s[k]);
        assert(s@.take(k + 1) =~= s@.take(k as int).push(s@[k as int]));
        k = k + 1;
    }
    r
}

/// Whether a character is a decimal digit.
pub open spec fn is_digit(c: char) -> bool {
    '0' <= c <= '9'
}

/// The number that some decimal digits write.
pub open spec fn decimal(d: Seq<char>) -> nat
    decreases d.len(),
{
    if d.len() == 0 {
        0
    } else {
        decimal(d.drop_last()) * 10 + ((d.last() as u32) - 48) as nat
    }
}

/// The number of leading digits of `s`.
pub open spec fn digit_run(s: Seq<char>) -> int
    decreases s.len(),
{
    if s.len() > 0 && is_digit(s[0]) {
        1 + digit_run(s.drop_first())
    } else {
        0
    }
}

/// The number of leading digits and minus signs of `s`.
pub open spec fn number_run(s: Seq<char>) -> int
    decreases s.len(),
{
    if s.len() > 0 && (is_digit(s[0]) || s[0] == '-') {
        1 + number_run(s.drop_first())
    } else {
        0
    }
}

/// What `str::parse::<u32>` gives for a run of digits.
pub open spec fn parse_u32(d: Seq<char>) -> Option<u32> {
    if d.len() == 0 || decimal(d) > u32::MAX {
        None
    } else {
        Some(decimal(d) as u32)
    }
}

/// What `str::parse::<i32>` gives for a run of digits and minus signs.
pub open spec fn parse_i32(t: Seq<char>) -> Option<i32> {
    if t.len() > 0 && t[0] == '-' {
        let d = t.drop_first();
        if d.len() == 0 || digit_run(d) < d.len() || decimal(d) > 0x8000_0000 {
            None
        } else {
            Some((-(decimal(d) as int)) as i32)
        }
    } else if t.len() == 0 || digit_run(t) < t.len() || decimal(t) > 0x7fff_ffff {
        None
    } else {
        Some(decimal(t) as i32)
    }
}

/// The value of `key="..."` in a line: the text up to the next quote.
pub open spec fn quoted_value(s: Seq<char>, key: Seq<char>) -> Option<Seq<char>> {
    let pat = key + seq!['=', '"'];
    match find(s, pat) {
        None => None,
        Some(i) => {
            let rest = s.skip(i + pat.len());
            match find(rest, seq!['"']) {
                None => None,
                Some(j) => Some(rest.take(j)),
            }
        },
    }
}

/// The value of `key=digits` in a line.
pub open spec fn u32_value(s: Seq<char>, key: Seq<char>) -> Option<u32> {
    let pat = key + seq!['='];
    match find(s, pat) {
        None => None,
        Some(i) => {
            let rest = s.skip(i + pat.len());
            parse_u32(rest.take(digit_run(rest)))
        },
    }
}

/// The value of `key=number` in a line, a minus sign allowed.
pub open spec fn i32_value(s: Seq<char>, key: Seq<char>) -> Option<i32> {
    let pat = key + seq!['='];
    match find(s, pat) {
        None => None,
        Some(i) => {
            let rest = s.skip(i + pat.len());
            parse_i32(rest.take(number_run(rest)))
        },
    }
}

fn digit(c: char) -> (r: bool)
    ensures
        r == is_digit(c),
{
    '0' <= c && c <= '9'
}

fn digit_run_exec(s: &Vec<char>, minus: bool) -> (r: usize)
    ensures
        r <= s@.len(),
        !minus ==> r == digit_run(s@),
        minus ==> r == number_run(s@),
{
    let mut k: usize = 0;
    assert(s@.skip(0) =~= s@);
    while k < s.len() && (digit(s[k]) || (minus && s[k] == '-'))
        invariant
            k <= s@.len(),
            !minus ==> digit_run(s@) == k + digit_run(s@.skip(k as int)),
            minus ==> number_run(s@) == k + number_run(s@.skip(k as int)),
        decreases s@.len() - k,
    {
        assert(s@.skip(k as int).drop_first() =~= s@.skip(k + 1));
        k = k + 1;
    }
    k
}

proof fn lemma_decimal_step(d: Seq<char>, k: int)
    requires
        0 <= k < d.len(),
    ensures
        decimal(d.take(k + 1)) == decimal(d.take(k)) * 10 + ((d[k] as u32) - 48) as nat,
{
    assert(d.take(k + 1).drop_last() =~= d.take(k));
}

proof fn lemma_decimal_mono(d: Seq<char>, k: int)
    requires
        0 <= k <= d.len(),
        forall|j: int| 0 <= j < d.len() ==> is_digit(#[trigger] d[j]),
    ensures
        decimal(d.take(k)) <= decimal(d),
    decreases d.len() - k,
{
    if k < d.len() {
        lemma_decimal_step(d, k);
        lemma_decimal_mono(d, k + 1);
    } else {
        assert(d.take(k) =~= d);
    }
}

proof fn lemma_digit_run_all(d: Seq<char>)
    ensures
        digit_run(d) <= d.len(),
        digit_run(d) == d.len() <==> forall|j: int| 0 <= j < d.len() ==> is_digit(#[trigger] d[j]),
        forall|j: int| 0 <= j < digit_run(d) ==> is_digit(#[trigger] d[j]),
    decreases d.len(),
{
    if d.len() > 0 {
        lemma_digit_run_all(d.drop_first());
        if is_digit(d[0]) {
            assert forall|j: int| 0 <= j < digit_run(d) implies is_digit(#[trigger] d[j]) by {
                if j > 0 {
                    assert(d[j] == d.drop_first()[j - 1]);
                }
            }
            if forall|j: int| 0 <= j < d.len() ==> is_digit(#[trigger] d[j]) {
                assert forall|j: int| 0 <= j < d.len() - 1 implies is_digit(
                    #[trigger] d.drop_first()[j],
                ) by {
                    assert(d.drop_first()[j] == d[j + 1]);
                }
            } else {
                let j = choose|j: int| 0 <= j < d.len() && !is_digit(#[trigger] d[j]);
                assert(!is_digit(d.drop_first()[j - 1]));
            }
        }
    }
}

/// Reads the digits of `d` as a number, `None` past `limit`.
fn decimal_upto(d: &Vec<char>, limit: u64) -> (r: Option<u64>)
    requires
        forall|j: int| 0 <= j < d@.len() ==> is_digit(#[trigger] d@[j]),
        limit <= u32::MAX + 1,
    ensures
        match r {
            Some(v) => v == decimal(d@) && v <= limit,
            None => decimal(d@) > limit,
        },
{
    let mut acc: u64 = 0;
    let mut k: usize = 0;
    assert(d@.take(0) =~= Seq::<char>::empty());
    while k < d.len()
        invariant
            forall|j: int| 0 <= j < d@.len() ==> is_digit(#[trigger] d@[j]),
            limit <= u32::MAX + 1,
            k <= d@.len(),
            acc == decimal(d@.take(k as int)),
            acc <= limit,
        decreases d@.len() - k,
    {
        proof {
            lemma_decimal_step(d@, k as int);
        }
        let c = d[k];
        let v = (c as u32) - 48;
        acc = acc * 10 + v as u64;
        k = k + 1;
        if acc > limit {
            proof {
                lemma_decimal_mono(d@, k as int);
            }
            return None;
        }
    }
    assert(d@.take(d@.len() as int) =~= d@);
    Some(acc)
}

fn parse_u32_exec(d: &Vec<char>) -> (r: Option<u32>)
    requires
        forall|j: int| 0 <= j < d@.len() ==> is_digit(#[trigger] d@[j]),
    ensures
        r == parse_u32(d@),
{
    if d.len() == 0 {
        return None;
    }
    match decimal_upto(d, 0xffff_ffff) {
        Some(v) => Some(v as u32),
        None => None,
    }
}

fn all_digits(d: &Vec<char>) -> (r: bool)
    ensures
        r == (digit_run(d@) == d@.len()),
        digit_run(d@) <= d@.len(),
        r ==> forall|j: int| 0 <= j < d@.len() ==> is_digit(#[trigger] d@[j]),
{
    proof {
        lemma_digit_run_all(d@);
    }
    digit_run_exec(d, false) == d.len()
}

fn parse_i32_exec(t: &Vec<char>) -> (r: Option<i32>)
    ensures
        r == parse_i32(t@),
{
    if t.len() > 0 && t[0] == '-' {
        let d = tail(t, 1);
        assert(d@ =~= t@.drop_first());
        if d.len() == 0 || !all_digits(&d) {
            return None;
        }
        match decimal_upto(&d, 0x8000_0000) {
            Some(v) => {
                let neg: i64 = -(v as i64);
                Some(neg as i32)
            },
            None => None,
        }
    } else {
        if t.len() == 0 || !all_digits(t) {
            return None;
        }
        match decimal_upto(t, 0x7fff_ffff) {
            Some(v) => Some(v as i32),
            None => None,
        }
    }
}

/// `key` followed by some characters.
fn key_with(key: &Vec<char>, more: &Vec<char>) -> (r: Vec<char>)
    ensures
        r@ == key@ + more@,
{
    let mut r = key.clone();
    let mut k: usize = 0;
    while k < more.len()
        invariant
            k <= more@.len(),
            r@ == key@ + more@.take(k as int),
        decreases more@.len() - k,
    {
        r.push(more[k]);
        assert(more@.take(k + 1) =~= more@.take(k as int).push(more@[k as int]));
        k = k + 1;
    }
    assert(more@.take(more@.len() as int) =~= more@);
    r
}

fn quoted_exec(s: &Vec<char>, key: &Vec<char>) -> (r: Option<Vec<char>>)
    ensures
        match r {
            Some(v) => quoted_value(s@, key@) == Some(v@),
            None => quoted_value(s@, key@) is None,
        },
{
    let pat = key_with(key, &vec!['=', '"']);
    assert(pat@ =~= key@ + seq!['=', '"']);
    match find_exec(s, &pat) {
        None => None,
        Some(i) => {
            proof {
                assert(exists|c: int| first_at(s@, pat@, c));
                assert(occurs_at(s@, pat@, i as int));
            }
            let n = s.len();
            let rest = tail(s, i + pat.len());
            let quote = vec!['"'];
            assert(quote@ =~= seq!['"']);
            match find_exec(&rest, &quote) {
                None => None,
                Some(j) => {
                    proof {
                        assert(exists|c: int| first_at(rest@, quote@, c));
                        assert(occurs_at(rest@, quote@, j as int));
                    }
                    Some(head(&rest, j))
                },
            }
        },
    }
}

fn u32_value_exec(s: &Vec<char>, key: &Vec<char>) -> (r: Option<u32>)
    ensures
        r == u32_value(s@, key@),
{
    let pat = key_with(key, &vec!['=']);
    assert(pat@ =~= key@ + seq!['=']);
    match find_exec(s, &pat) {
        None => None,
        Some(i) => {
            proof {
                assert(exists|c: int| first_at(s@, pat@, c));
                assert(occurs_at(s@, pat@, i as int));
            }
            let n = s.len();
            let rest = tail(s, i + pat.len());
            let end = digit_run_exec(&rest, false);
            let digits = head(&rest, end);
            proof {
                lemma_digit_run_all(rest@);
                assert forall|j: int| 0 <= j < digits@.len() implies is_digit(#[trigger] digits@[j]) by {
                    assert(digits@[j] == rest@[j]);
                }
            }
            parse_u32_exec(&digits)
        },
    }
}

fn i32_value_exec(s: &Vec<char>, key: &Vec<char>) -> (r: Option<i32>)
    ensures
        r == i32_value(s@, key@),
{
    let pat = key_with(key, &vec!['=']);
    assert(pat@ =~= key@ + seq!['=']);
    match find_exec(s, &pat) {
        None => None,
        Some(i) => {
            proof {
                assert(exists|c: int| first_at(s@, pat@, c));
                assert(occurs_at(s@, pat@, i as int));
            }
            let n = s.len();
            let rest = tail(s, i + pat.len());
            let end = digit_run_exec(&rest, true);
            let token = head(&rest, end);
            parse_i32_exec(&token)
        },
    }
}

/// What a font file says, line by line.
pub struct FntModel {
    pub face: Seq<char>,
    pub size: u32,
    pub line_height: u32,
    pub base: u32,
    pub pages: Seq<Seq<char>>,
    pub glyphs: Map<u32, BitmapGlyph>,
    pub kernings: Map<u64, i32>,
}

/// The model before any line.
pub open spec fn empty_model() -> FntModel {
    FntModel {
        face: Seq::empty(),
        size: 0,
        line_height: 0,
        base: 0,
        pages: Seq::empty(),
        glyphs: Map::empty(),
        kernings: Map::empty(),
    }
}

/// A number or zero.
pub open spec fn u32_or_zero(o: Option<u32>) -> u32 {
    match o {
        Some(v) => v,
        None => 0,
    }
}

/// A number or zero.
pub open spec fn i32_or_zero(o: Option<i32>) -> i32 {
    match o {
        Some(v) => v,
        None => 0,
    }
}

/// A text or the empty text.
pub open spec fn text_or_empty(o: Option<Seq<char>>) -> Seq<char> {
    match o {
        Some(v) => v,
        None => Seq::empty(),
    }
}

/// The glyph of a `char` line (after the prefix); missing values are zero.
pub open spec fn glyph_of(rest: Seq<char>) -> BitmapGlyph {
    BitmapGlyph {
        id: u32_or_zero(u32_value(rest, "id"@)),
        x: u32_or_zero(u32_value(rest, "x"@)),
        y: u32_or_zero(u32_value(rest, "y"@)),
        width: u32_or_zero(u32_value(rest, "width"@)),
        height: u32_or_zero(u32_value(rest, "height"@)),
        xoffset: i32_or_zero(i32_value(rest, "xoffset"@)),
        yoffset: i32_or_zero(i32_value(rest, "yoffset"@)),
        xadvance: i32_or_zero(i32_value(rest, "xadvance"@)),
        page: u32_or_zero(u32_value(rest, "page"@)),
    }
}

/// Whether a line starts with a prefix.
pub open spec fn starts_with(line: Seq<char>, prefix: Seq<char>) -> bool {
    prefix.len() <= line.len() && line.take(prefix.len() as int) == prefix
}

/// The effect of one trimmed line: `info` sets the face and size, `common` the line
/// height and base, `page` adds a page, `char` puts a glyph under its id, `kerning`
/// puts an amount under its pair; other lines change nothing.
pub open spec fn apply_line(m: FntModel, line: Seq<char>) -> FntModel {
    if starts_with(line, "info "@) {
        let rest = line.skip("info "@.len() as int);
        FntModel {
            face: text_or_empty(quoted_value(rest, "face"@)),
            size: u32_or_zero(u32_value(rest, "size"@)),
            ..m
        }
    } else if starts_with(line, "common "@) {
        let rest = line.skip("common "@.len() as int);
        FntModel {
            line_height: u32_or_zero(u32_value(rest, "lineHeight"@)),
            base: u32_or_zero(u32_value(rest, "base"@)),
            ..m
        }
    } else if starts_with(line, "page "@) {
        let rest = line.skip("page "@.len() as int);
        FntModel { pages: m.pages.push(text_or_empty(quoted_value(rest, "file"@))), ..m }
    } else if starts_with(line, "char "@) {
        let rest = line.skip("char "@.len() as int);
        let g = glyph_of(rest);
        FntModel { glyphs: m.glyphs.insert(g.id, g), ..m }
    } else if starts_with(line, "kerning "@) {
        let rest = line.skip("kerning "@.len() as int);
        let pair = pair_key(u32_or_zero(u32_value(rest, "first"@)), u32_or_zero(u32_value(rest, "second"@)));
        FntModel { kernings: m.kernings.insert(pair, i32_or_zero(i32_value(rest, "amount"@))), ..m }
    } else {
        m
    }
}

/// The model after the complete lines of a text, and the characters of its last,
/// unfinished line.
pub open spec fn scan(t: Seq<char>) -> (FntModel, Seq<char>)
    decreases t.len(),
{
    if t.len() == 0 {
        (empty_model(), Seq::empty())
    } else {
        let (m, cur) = scan(t.drop_last());
        if t.last() == '\n' {
            (apply_line(m, trim(cur)), Seq::empty())
        } else {
            (m, cur.push(t.last()))
        }
    }
}

/// What a font file says: every line (split at line feeds) trimmed and applied in
/// order.
pub open spec fn fnt_model(t: Seq<char>) -> FntModel {
    let (m, cur) = scan(t);
    apply_line(m, trim(cur))
}

/// Collects characters into a `String` with std's `FromIterator<char>`.
/// Claimed: the string holds exactly those characters.
#[verifier::external_body]
fn string_of(chars: &Vec<char>) -> (r: String)
    ensures
        r@ == chars@,
{
    chars.iter().collect()
}

/// The font being read, with a model of what it holds.
struct Builder {
    face: Vec<char>,
    size: u32,
    line_height: u32,
    base: u32,
    pages: Vec<String>,
    page_model: Ghost<Seq<Seq<char>>>,
    glyphs: HashMap<u32, BitmapGlyph>,
    kernings: HashMap<u64, i32>,
}

impl Builder {
    /// Whether the builder holds the model's face, numbers, pages, glyphs and kernings.
    spec fn holds(&self, m: FntModel) -> bool {
        &&& self.face@ == m.face
        &&& self.size == m.size
        &&& self.line_height == m.line_height
        &&& self.base == m.base
        &&& self.page_model@ == m.pages
        &&& self.pages@.len() == m.pages.len()
        &&& forall|i: int| 0 <= i < m.pages.len() ==> #[trigger] self.pages@[i]@ == m.pages[i]
        &&& self.glyphs@ == m.glyphs
        &&& self.kernings@ == m.kernings
    }
}

fn strip_prefix(line: &Vec<char>, prefix: &str) -> (r: Option<Vec<char>>)
    ensures
        match r {
            Some(rest) => starts_with(line@, prefix@) && rest@ == line@.skip(prefix@.len() as int),
            None => !starts_with(line@, prefix@),
        },
{
    let p = chars_of(prefix);
    if p.len() > line.len() {
        return None;
    }
    let mut k: usize = 0;
    while k < p.len()
        invariant
            p@ == prefix@,
            p@.len() <= line@.len(),
            k <= p@.len(),
            forall|j: int| 0 <= j < k ==> line@[j] == p@[j],
        decreases p@.len() - k,
    {
        if line[k] != p[k] {
            assert(line@.take(p@.len() as int)[k as int] != p@[k as int]);
            return None;
        }
        k = k + 1;
    }
    assert(line@.take(p@.len() as int) =~= p@);
    Some(tail(line, p.len()))
}

fn apply_line_exec(b: &mut Builder, line: &Vec<char>, m: Ghost<FntModel>)
    requires
        old(b).holds(m@),
    ensures
        final(b).holds(apply_line(m@, line@)),
{
    if let Some(rest) = strip_prefix(line, "info ") {
        b.face = match quoted_exec(&rest, &chars_of("face")) {
            Some(v) => v,
            None => Vec::new(),
        };
        b.size = match u32_value_exec(&rest, &chars_of("size")) {
            Some(v) => v,
            None => 0,
        };
    } else if let Some(rest) = strip_prefix(line, "common ") {
        b.line_height = match u32_value_exec(&rest, &chars_of("lineHeight")) {
            Some(v) => v,
            None => 0,
        };
        b.base = match u32_value_exec(&rest, &chars_of("base")) {
            Some(v) => v,
            None => 0,
        };
    } else if let Some(rest) = strip_prefix(line, "page ") {
        let file = match quoted_exec(&rest, &chars_of("file")) {
            Some(v) => v,
            None => Vec::new(),
        };
        let s = string_of(&file);
        b.pages.push(s);
        b.page_model = Ghost(b.page_model@.push(file@));
        assert forall|i: int| 0 <= i < b.page_model@.len() implies #[trigger] b.pages@[i]@
            == b.page_model@[i] by {
            if i < m@.pages.len() {
                assert(b.pages@[i] == old(b).pages@[i]);
            }
        }
    } else if let Some(rest) = strip_prefix(line, "char ") {
        let opt = |o: Option<u32>| -> (r: u32)
            ensures
                r == u32_or_zero(o),
            {
                match o {
                    Some(v) => v,
                    None => 0,
                }
            };
        let opt_signed = |o: Option<i32>| -> (r: i32)
            ensures
                r == i32_or_zero(o),
            {
                match o {
                    Some(v) => v,
                    None => 0,
                }
            };
        let glyph = BitmapGlyph {
            id: opt(u32_value_exec(&rest, &chars_of("id"))),
            x: opt(u32_value_exec(&rest, &chars_of("x"))),
            y: opt(u32_value_exec(&rest, &chars_of("y"))),
            width: opt(u32_value_exec(&rest, &chars_of("width"))),
            height: opt(u32_value_exec(&rest, &chars_of("height"))),
            xoffset: opt_signed(i32_value_exec(&rest, &chars_of("xoffset"))),
            yoffset: opt_signed(i32_value_exec(&rest, &chars_of("yoffset"))),
            xadvance: opt_signed(i32_value_exec(&rest, &chars_of("xadvance"))),
            page: opt(u32_value_exec(&rest, &chars_of("page"))),
        };
        assert(glyph == glyph_of(rest@));
        b.glyphs.insert(glyph.id, glyph);
    } else if let Some(rest) = strip_prefix(line, "kerning ") {
        let first: u32 = match u32_value_exec(&rest, &chars_of("first")) {
            Some(v) => v,
            None => 0,
        };
        let second: u32 = match u32_value_exec(&rest, &chars_of("second")) {
            Some(v) => v,
            None => 0,
        };
        let amount: i32 = match i32_value_exec(&rest, &chars_of("amount")) {
            Some(v) => v,
            None => 0,
        };
        b.kernings.insert(kerning_key(first, second), amount);
    }
}

/// Parses the text form of a BMFont file. Every line is trimmed; `info`, `common`,
/// `page`, `char` and `kerning` lines are read, other lines skipped; a value that is
/// missing or does not parse reads as zero (or empty). A file with no `page` line is
/// refused.
pub fn parse_fnt(content: &str) -> (r: Result<BitmapFont, FntError>)
    ensures
        ({
            let m = fnt_model(content@);
            match r {
                Err(e) => m.pages.len() == 0 && e == FntError::NoPages,
                Ok(font) => {
                    &&& m.pages.len() > 0
                    &&& font.face@ == m.face
                    &&& font.size == m.size
                    &&& font.line_height == m.line_height
                    &&& font.base == m.base
                    &&& font.pages@.len() == m.pages.len()
                    &&& forall|i: int| 0 <= i < m.pages.len() ==> #[trigger] font.pages@[i]@ == m.pages[i]
                    &&& font.glyphs@ == m.glyphs
                    &&& font.kernings@ == m.kernings
                },
            }
        }),
{
    let text = chars_of(content);
    let mut b = Builder {
        face: Vec::new(),
        size: 0,
        line_height: 0,
        base: 0,
        pages: Vec::new(),
        page_model: Ghost(Seq::empty()),
        glyphs: HashMap::new(),
        kernings: HashMap::new(),
    };
    let mut cur: Vec<char> = Vec::new();
    let mut i: usize = 0;
    assert(text@.take(0) =~= Seq::<char>::empty());
    assert(b.holds(empty_model()));
    while i < text.len()
        invariant
            i <= text@.len(),
            b.holds(scan(text@.take(i as int)).0),
            cur@ == scan(text@.take(i as int)).1,
        decreases text@.len() - i,
    {
        let c = text[i];
        assert(text@.take(i + 1).drop_last() =~= text@.take(i as int));
        if c == '\n' {
            let line = trim_chars(&cur);
            apply_line_exec(&mut b, &line, Ghost(scan(text@.take(i as int)).0));
            cur = Vec::new();
        } else {
            cur.push(c);
        }
        i = i + 1;
    }
    assert(text@.take(text@.len() as int) =~= text@);
    let line = trim_chars(&cur);
    apply_line_exec(&mut b, &line, Ghost(scan(text@).0));
    if b.pages.len() == 0 {
        return Err(FntError::NoPages);
    }
    let face = string_of(&b.face);
    Ok(
        BitmapFont {
            face,
            size: b.size,
            line_height: b.line_height,
            base: b.base,
            pages: b.pages,
            glyphs: b.glyphs,
            kernings: b.kernings,
        },
    )
}

} // verus!
