use vstd::prelude::*;

verus! {

/// The characters that Unicode gives the White_Space property, which is
/// what `char::is_whitespace` tests.
pub open spec fn is_space(c: char) -> bool {
    let u = c as u32;
    ||| 0x9 <= u <= 0xd
    ||| u == 0x20
    ||| u == 0x85
    ||| u == 0xa0
    ||| u == 0x1680
    ||| 0x2000 <= u <= 0x200a
    ||| u == 0x2028
    ||| u == 0x2029
    ||| u == 0x202f
    ||| u == 0x205f
    ||| u == 0x3000
}

pub fn char_is_space(c: char) -> (b: bool)
    ensures
        b == is_space(c),
{
    let u = c as u32;
    (0x9 <= u && u <= 0xd) || u == 0x20 || u == 0x85 || u == 0xa0 || u == 0x1680 || (0x2000 <= u
        && u <= 0x200a) || u == 0x2028 || u == 0x2029 || u == 0x202f || u == 0x205f || u == 0x3000
}

/// The length of the run of non-space characters that `s` starts with.
pub open spec fn word_len(s: Seq<char>) -> nat
    decreases s.len(),
{
    if s.len() == 0 || is_space(s[0]) {
        0
    } else {
        1 + word_len(s.drop_first())
    }
}

/// The words of `s`: its maximal runs of non-space characters, in order,
/// as `str::split_whitespace` gives them.
pub open spec fn words(s: Seq<char>) -> Seq<Seq<char>>
    decreases s.len(),
{
    if s.len() == 0 {
        seq![]
    } else if is_space(s[0]) {
        words(s.drop_first())
    } else {
        let n = word_len(s);
        if n >= s.len() {
            seq![s]
        } else {
            seq![s.take(n as int)] + words(s.skip(n as int))
        }
    }
}

/// The length of the part of `s` before the first `sep`, or of all of `s`.
pub open spec fn field_len(s: Seq<char>, sep: char) -> nat
    decreases s.len(),
{
    if s.len() == 0 || s[0] == sep {
        0
    } else {
        1 + field_len(s.drop_first(), sep)
    }
}

/// The parts of `s` between the occurrences of `sep`, empty ones
/// included, as `str::split` gives them; the empty text has one part.
pub open spec fn split_on(s: Seq<char>, sep: char) -> Seq<Seq<char>>
    decreases s.len(),
{
    let n = field_len(s, sep);
    if n >= s.len() {
        seq![s]
    } else {
        seq![s.take(n as int)] + split_on(s.skip(n + 1int), sep)
    }
}

/// `s` without its trailing white space.
pub open spec fn trim_end(s: Seq<char>) -> Seq<char>
    decreases s.len(),
{
    if s.len() > 0 && is_space(s.last()) {
        trim_end(s.drop_last())
    } else {
        s
    }
}

/// `s` without its leading white space.
pub open spec fn trim_start(s: Seq<char>) -> Seq<char>
    decreases s.len(),
{
    if s.len() > 0 && is_space(s[0]) {
        trim_start(s.drop_first())
    } else {
        s
    }
}

/// `s` without white space at either end.
pub open spec fn trim(s: Seq<char>) -> Seq<char> {
    trim_start(trim_end(s))
}

/// `s` cut at its first `sep`, as `str::split_once` does.
pub open spec fn split_once(s: Seq<char>, sep: char) -> Option<(Seq<char>, Seq<char>)> {
    let n = field_len(s, sep);
    if n < s.len() {
        Some((s.take(n as int), s.skip(n + 1int)))
    } else {
        None
    }
}

pub open spec fn is_digit(c: char) -> bool {
    '0' <= c <= '9'
}

pub open spec fn digit_value(c: char) -> int {
    (c as u32) - ('0' as u32)
}

/// The number that a run of decimal digits writes.
pub open spec fn digits_value(s: Seq<char>) -> int
    decreases s.len(),
{
    if s.len() == 0 {
        0
    } else {
        digits_value(s.drop_last()) * 10 + digit_value(s.last())
    }
}

pub open spec fn all_digits(s: Seq<char>) -> bool {
    forall|i: int| 0 <= i < s.len() ==> is_digit(#[trigger] s[i])
}

/// The value that parsing `s` as an unsigned integer type whose largest
/// value is `max` gives: an optional `+`, then at least one decimal digit,
/// and nothing that does not fit.
pub open spec fn parse_unsigned(s: Seq<char>, max: int) -> Option<int> {
    let d = if s.len() >= 1 && s[0] == '+' {
        s.drop_first()
    } else {
        s
    };
    if d.len() == 0 || !all_digits(d) || digits_value(d) > max {
        None
    } else {
        Some(digits_value(d))
    }
}

pub open spec fn digit_char(d: int) -> char {
    ((d + ('0' as u32)) as u32) as char
}

/// The decimal numeral of `n`, without leading zeros.
pub open spec fn decimal(n: nat) -> Seq<char>
    decreases n,
{
    if n < 10 {
        seq![digit_char(n as int)]
    } else {
        decimal(n / 10).push(digit_char((n % 10) as int))
    }
}

/// `s` with every newline replaced by a space.
pub open spec fn one_line(s: Seq<char>) -> Seq<char> {
    s.map_values(|c: char| if c == '\n' { ' ' } else { c })
}

/// The texts held by a sequence of character vectors.
pub open spec fn texts(v: Seq<Vec<char>>) -> Seq<Seq<char>> {
    v.map_values(|x: Vec<char>| x@)
}

/// The characters of `s`.
pub fn chars_of(s: &str) -> (chars: Vec<char>)
    ensures
        chars@ == s@,
{
    let mut chars: Vec<char> = Vec::new();
    proof {
        vstd::string::axiom_spec_iter(s);
    }
    for c in it: s.chars()
        invariant
            it.seq() == s@,
            chars@ == it.seq().take(it.index() as int),
    {
        assert(it.seq().take(it.index() + 1) =~= chars@.push(c));
        chars.push(c);
    }
    assert(chars@ =~= s@);
    chars
}

/// The characters of `chars` from `lo` up to `hi`.
pub fn sub_chars(chars: &Vec<char>, lo: usize, hi: usize) -> (r: Vec<char>)
    requires
        lo <= hi <= chars@.len(),
    ensures
        r@ == chars@.subrange(lo as int, hi as int),
{
    let mut r: Vec<char> = Vec::new();
    for i in lo..hi
        invariant
            lo <= hi <= chars@.len(),
            r@ =~= chars@.subrange(lo as int, i as int),
    {
        r.push(chars[i]);
    }
    r
}

/// Whether `chars` holds exactly the characters of `word`.
pub fn chars_equal(chars: &Vec<char>, word: &[char]) -> (b: bool)
    ensures
        b == (chars@ == word@),
{
    if chars.len() != word.len() {
        return false;
    }
    let mut i: usize = 0;
    while i < chars.len()
        invariant
            chars@.len() == word@.len(),
            i <= chars@.len(),
            forall|k: int| 0 <= k < i ==> chars@[k] == word@[k],
        decreases chars@.len() - i,
    {
        if chars[i] != word[i] {
            return false;
        }
        i += 1;
    }
    assert(chars@ =~= word@);
    true
}

proof fn lemma_skip_step(s: Seq<char>, i: int)
    requires
        0 <= i < s.len(),
    ensures
        s.skip(i)[0] == s[i],
        s.skip(i).drop_first() =~= s.skip(i + 1),
        s.skip(i).len() > 0,
{
}

proof fn lemma_word_len_scan(s: Seq<char>, i: int, e: int)
    requires
        0 <= i <= e <= s.len(),
        forall|k: int| i <= k < e ==> !is_space(#[trigger] s[k]),
        e == s.len() || is_space(s[e]),
    ensures
        word_len(s.skip(i)) == e - i,
    decreases e - i,
{
    if i < e {
        lemma_skip_step(s, i);
        lemma_word_len_scan(s, i + 1, e);
    } else if i < s.len() {
        lemma_skip_step(s, i);
    }
}

proof fn lemma_field_len_scan(s: Seq<char>, sep: char, i: int, e: int)
    requires
        0 <= i <= e <= s.len(),
        forall|k: int| i <= k < e ==> #[trigger] s[k] != sep,
        e == s.len() || s[e] == sep,
    ensures
        field_len(s.skip(i), sep) == e - i,
    decreases e - i,
{
    if i < e {
        lemma_skip_step(s, i);
        lemma_field_len_scan(s, sep, i + 1, e);
    } else if i < s.len() {
        lemma_skip_step(s, i);
    }
}

/// The words of `chars`, as `str::split_whitespace` gives them.
pub fn split_words(chars: &Vec<char>) -> (r: Vec<Vec<char>>)
    ensures
        texts(r@) == words(chars@),
{
    let ghost s = chars@;
    let n = chars.len();
    let mut r: Vec<Vec<char>> = Vec::new();
    let mut i: usize = 0;
    assert(s.skip(0) =~= s);
    while i < n
        invariant
            s == chars@,
            n == s.len(),
            i <= n,
            texts(r@) + words(s.skip(i as int)) == words(s),
        decreases n - i,
    {
        proof {
            lemma_skip_step(s, i as int);
        }
        if char_is_space(chars[i]) {
            i += 1;
        } else {
            let mut e = i;
            while e < n && !char_is_space(chars[e])
                invariant
                    s == chars@,
                    n == s.len(),
                    i <= e <= n,
                    forall|k: int| i <= k < e ==> !is_space(#[trigger] s[k]),
                decreases n - e,
            {
                e += 1;
            }
            proof {
                lemma_word_len_scan(s, i as int, e as int);
            }
            let word = sub_chars(chars, i, e);
            let ghost old_r = r@;
            r.push(word);
            proof {
                let t = s.skip(i as int);
                assert(t.take(e - i) =~= s.subrange(i as int, e as int));
                assert(t.skip(e - i) =~= s.skip(e as int));
                assert(texts(r@) =~= texts(old_r).push(word@));
                if e == n {
                    assert(t =~= s.subrange(i as int, e as int));
                    assert(s.skip(e as int) =~= Seq::<char>::empty());
                }
                assert(texts(r@) + words(s.skip(e as int)) =~= texts(old_r) + words(t));
            }
            i = e;
        }
    }
    assert(s.skip(n as int) =~= Seq::<char>::empty());
    assert(texts(r@) + Seq::<Seq<char>>::empty() =~= texts(r@));
    r
}

/// The parts of `chars` between the occurrences of `sep`, as `str::split`
/// gives them.
pub fn split_chars(chars: &Vec<char>, sep: char) -> (r: Vec<Vec<char>>)
    ensures
        texts(r@) == split_on(chars@, sep),
{
    let ghost s = chars@;
    let n = chars.len();
    let mut r: Vec<Vec<char>> = Vec::new();
    let mut i: usize = 0;
    assert(s.skip(0) =~= s);
    loop
        invariant_except_break
            s == chars@,
            n == s.len(),
            i <= n,
            texts(r@) + split_on(s.skip(i as int), sep) == split_on(s, sep),
        ensures
            texts(r@) == split_on(s, sep),
        decreases n - i,
    {
        let mut e = i;
        while e < n && chars[e] != sep
            invariant
                s == chars@,
                n == s.len(),
                i <= e <= n,
                forall|k: int| i <= k < e ==> #[trigger] s[k] != sep,
            decreases n - e,
        {
            e += 1;
        }
        proof {
            lemma_field_len_scan(s, sep, i as int, e as int);
        }
        let field = sub_chars(chars, i, e);
        let ghost old_r = r@;
        let ghost t = s.skip(i as int);
        r.push(field);
        assert(texts(r@) =~= texts(old_r).push(field@));
        if e == n {
            assert(t =~= s.subrange(i as int, e as int));
            assert(texts(r@) =~= texts(old_r) + split_on(t, sep));
            break;
        }
        proof {
            assert(t.take(e - i) =~= s.subrange(i as int, e as int));
            assert(t.skip(e - i + 1) =~= s.skip(e + 1));
            assert(texts(r@) + split_on(s.skip(e + 1), sep) =~= texts(old_r) + split_on(t, sep));
        }
        i = e + 1;
    }
    r
}

/// How many characters of `chars` are left once trailing white space is
/// cut off.
pub fn trimmed_end(chars: &Vec<char>) -> (m: usize)
    ensures
        m <= chars@.len(),
        chars@.take(m as int) == trim_end(chars@),
{
    let ghost s = chars@;
    let mut m = chars.len();
    assert(s.take(m as int) =~= s);
    while m > 0 && char_is_space(chars[m - 1])
        invariant
            s == chars@,
            m <= s.len(),
            trim_end(s.take(m as int)) == trim_end(s),
        decreases m,
    {
        assert(s.take(m as int).drop_last() =~= s.take(m - 1));
        m -= 1;
    }
    m
}

/// How many characters of `chars` come before the first non-space one.
pub fn trimmed_start(chars: &Vec<char>) -> (k: usize)
    ensures
        k <= chars@.len(),
        chars@.skip(k as int) == trim_start(chars@),
{
    let ghost s = chars@;
    let mut k: usize = 0;
    assert(s.skip(0) =~= s);
    while k < chars.len() && char_is_space(chars[k])
        invariant
            s == chars@,
            k <= s.len(),
            trim_start(s.skip(k as int)) == trim_start(s),
        decreases s.len() - k,
    {
        assert(s.skip(k as int).drop_first() =~= s.skip(k + 1));
        k += 1;
    }
    k
}

/// Where the first `sep` of `chars` is, or the length of `chars`.
pub fn find_char(chars: &Vec<char>, sep: char) -> (j: usize)
    ensures
        j == field_len(chars@, sep),
        j <= chars@.len(),
{
    let mut j: usize = 0;
    while j < chars.len() && chars[j] != sep
        invariant
            j <= chars@.len(),
            forall|k: int| 0 <= k < j ==> #[trigger] chars@[k] != sep,
        decreases chars@.len() - j,
    {
        j += 1;
    }
    proof {
        lemma_field_len_scan(chars@, sep, 0, j as int);
        assert(chars@.skip(0) =~= chars@);
    }
    j
}

proof fn lemma_digits_prefix(d: Seq<char>, k: int)
    requires
        all_digits(d),
        0 <= k <= d.len(),
    ensures
        0 <= digits_value(d.take(k)) <= digits_value(d),
    decreases d.len(),
{
    if d.len() > 0 {
        assert(all_digits(d.drop_last()));
        assert(is_digit(d[d.len() - 1]));
        if k == d.len() {
            assert(d.take(k) =~= d);
            lemma_digits_prefix(d.drop_last(), k - 1);
        } else {
            assert(d.drop_last().take(k) =~= d.take(k));
            lemma_digits_prefix(d.drop_last(), k);
            lemma_digits_prefix(d.drop_last(), d.len() - 1);
            assert(d.drop_last().take(d.len() - 1) =~= d.drop_last());
        }
    }
}

/// Reads `chars` as an unsigned number no larger than `max`, as
/// `str::parse` does for an unsigned integer type whose largest value is
/// `max`.
pub fn parse_number(chars: &Vec<char>, max: usize) -> (r: Option<usize>)
    ensures
        match r {
            Some(v) => parse_unsigned(chars@, max as int) == Some(v as int),
            None => parse_unsigned(chars@, max as int) is None,
        },
{
    let ghost s = chars@;
    let n = chars.len();
    let start: usize = if n >= 1 && chars[0] == '+' {
        1
    } else {
        0
    };
    let ghost d = if s.len() >= 1 && s[0] == '+' {
        s.drop_first()
    } else {
        s
    };
    assert(d =~= s.skip(start as int));
    if start == n {
        return None;
    }
    let mut value: usize = 0;
    let mut k = start;
    assert(d.take(0) =~= Seq::<char>::empty());
    while k < n
        invariant
            s == chars@,
            n == s.len(),
            start <= k <= n,
            d == s.skip(start as int),
            d == (if s.len() >= 1 && s[0] == '+' {
                s.drop_first()
            } else {
                s
            }),
            forall|i: int| 0 <= i < k - start ==> is_digit(#[trigger] d[i]),
            value == digits_value(d.take(k - start)),
            value <= max,
        decreases n - k,
    {
        let c = chars[k];
        if !(c >= '0' && c <= '9') {
            assert(d[k - start] == c);
            assert(!is_digit(d[k - start]));
            assert(!all_digits(d));
            return None;
        }
        let dv = (c as u32 - '0' as u32) as usize;
        assert(d.take(k - start + 1).drop_last() =~= d.take(k - start));
        assert(d[k - start] == c);
        let ghost next = digits_value(d.take(k - start + 1));
        assert(next == value * 10 + dv);
        let grown = value.checked_mul(10);
        let overflow = match grown {
            None => true,
            Some(v10) => match v10.checked_add(dv) {
                None => true,
                Some(v) => v > max,
            },
        };
        if overflow {
            proof {
                assert(next > max);
                if all_digits(d) {
                    lemma_digits_prefix(d, k - start + 1);
                }
            }
            return None;
        }
        value = value * 10 + dv;
        k += 1;
    }
    assert(d.take(n - start) =~= d);
    Some(value)
}

fn digit_text(d: usize) -> (r: &'static str)
    requires
        d < 10,
    ensures
        r@ == seq![digit_char(d as int)],
{
    proof {
        reveal_strlit("0");
        reveal_strlit("1");
        reveal_strlit("2");
        reveal_strlit("3");
        reveal_strlit("4");
        reveal_strlit("5");
        reveal_strlit("6");
        reveal_strlit("7");
        reveal_strlit("8");
        reveal_strlit("9");
    }
    if d == 0 {
        "0"
    } else if d == 1 {
        "1"
    } else if d == 2 {
        "2"
    } else if d == 3 {
        "3"
    } else if d == 4 {
        "4"
    } else if d == 5 {
        "5"
    } else if d == 6 {
        "6"
    } else if d == 7 {
        "7"
    } else if d == 8 {
        "8"
    } else {
        "9"
    }
}

/// Appends the decimal numeral of `n` to `out`.
pub fn push_decimal(out: &mut String, n: usize)
    ensures
        final(out)@ == old(out)@ + decimal(n as nat),
    decreases n,
{
    if n >= 10 {
        push_decimal(out, n / 10);
    }
    out.append(digit_text(n % 10));
    proof {
        if n >= 10 {
            assert(old(out)@ + decimal(n as nat) =~= old(out)@ + decimal((n / 10) as nat) + seq![
                digit_char((n % 10) as int),
            ]);
        }
    }
}

/// Appends `text` to `out` with each newline turned into a space.
pub fn push_one_line(out: &mut String, text: &str)
    ensures
        final(out)@ == old(out)@ + one_line(text@),
{
    let n = text.unicode_len();
    let ghost start = out@;
    for i in 0..n
        invariant
            n == text@.len(),
            out@ =~= start + one_line(text@).take(i as int),
    {
        let c = text.get_char(i);
        if c == '\n' {
            proof {
                reveal_strlit(" ");
            }
            out.append(" ");
        } else {
            out.append(text.substring_char(i, i + 1));
        }
        assert(one_line(text@).take(i + 1) =~= one_line(text@).take(i as int).push(one_line(text@)[i as int]));
    }
    assert(one_line(text@).take(n as int) =~= one_line(text@));
}


/// No character of `s` is white space.
pub open spec fn no_space(s: Seq<char>) -> bool {
    forall|i: int| 0 <= i < s.len() ==> !is_space(#[trigger] s[i])
}

/// `sep` does not occur in `s`.
pub open spec fn lacks(s: Seq<char>, sep: char) -> bool {
    forall|i: int| 0 <= i < s.len() ==> #[trigger] s[i] != sep
}

pub proof fn lemma_word_len_of_word(w: Seq<char>, r: Seq<char>)
    requires
        no_space(w),
        r.len() == 0 || is_space(r[0]),
    ensures
        word_len(w + r) == w.len(),
    decreases w.len(),
{
    if w.len() > 0 {
        assert((w + r)[0] == w[0]);
        assert((w + r).drop_first() =~= w.drop_first() + r);
        lemma_word_len_of_word(w.drop_first(), r);
    } else {
        assert(w + r =~= r);
    }
}

/// A word followed by white space or by nothing is the first word.
pub proof fn lemma_words_word_then(w: Seq<char>, r: Seq<char>)
    requires
        w.len() >= 1,
        no_space(w),
        r.len() == 0 || is_space(r[0]),
    ensures
        words(w + r) == seq![w] + words(r),
{
    lemma_word_len_of_word(w, r);
    let s = w + r;
    assert(s[0] == w[0]);
    if r.len() == 0 {
        assert(s =~= w);
        assert(seq![w] + words(r) =~= seq![w]);
    } else {
        assert(s.take(w.len() as int) =~= w);
        assert(s.skip(w.len() as int) =~= r);
    }
}

/// White space in front of a text does not change its words.
pub proof fn lemma_words_space_then(c: char, r: Seq<char>)
    requires
        is_space(c),
    ensures
        words(seq![c] + r) == words(r),
{
    assert((seq![c] + r).drop_first() =~= r);
}

pub proof fn lemma_field_len_of_field(a: Seq<char>, r: Seq<char>, sep: char)
    requires
        lacks(a, sep),
        r.len() == 0 || r[0] == sep,
    ensures
        field_len(a + r, sep) == a.len(),
    decreases a.len(),
{
    if a.len() > 0 {
        assert((a + r)[0] == a[0]);
        assert((a + r).drop_first() =~= a.drop_first() + r);
        lemma_field_len_of_field(a.drop_first(), r, sep);
    } else {
        assert(a + r =~= r);
    }
}

/// A text without the separator is a single part.
pub proof fn lemma_split_whole(a: Seq<char>, sep: char)
    requires
        lacks(a, sep),
    ensures
        split_on(a, sep) == seq![a],
{
    lemma_field_len_of_field(a, seq![], sep);
    assert(a + Seq::<char>::empty() =~= a);
}

/// Splitting `a`, the separator and a last part `b` gives the parts of `a`
/// and then `b`.
pub proof fn lemma_split_then(a: Seq<char>, b: Seq<char>, sep: char)
    requires
        lacks(b, sep),
    ensures
        split_on(a + seq![sep] + b, sep) == split_on(a, sep) + seq![b],
    decreases a.len(),
{
    let s = a + seq![sep] + b;
    let n = field_len(a, sep);
    lemma_field_len_le(a, sep);
    if n >= a.len() {
        assert(lacks(a, sep)) by {
            lemma_field_len_scan_back(a, sep);
        }
        lemma_field_len_of_field(a, seq![sep] + b, sep);
        assert(s =~= a + (seq![sep] + b));
        assert(s.take(a.len() as int) =~= a);
        assert(s.skip(a.len() + 1int) =~= b);
        lemma_split_whole(b, sep);
        lemma_split_whole(a, sep);
    } else {
        let rest = a.skip(n + 1int);
        lemma_field_len_scan_back(a, sep);
        assert(a.skip(n as int)[0] == a[n as int]);
        assert(lacks(a.take(n as int), sep));
        lemma_field_len_of_field(a.take(n as int), a.skip(n as int) + seq![sep] + b, sep);
        assert(a.take(n as int) + (a.skip(n as int) + seq![sep] + b) =~= s);
        assert(s.take(n as int) =~= a.take(n as int));
        assert(s.skip(n + 1int) =~= rest + seq![sep] + b);
        lemma_split_then(rest, b, sep);
        assert(seq![a.take(n as int)] + (split_on(rest, sep) + seq![b]) =~= seq![a.take(n as int)]
            + split_on(rest, sep) + seq![b]);
    }
}

pub proof fn lemma_field_len_le(a: Seq<char>, sep: char)
    ensures
        field_len(a, sep) <= a.len(),
    decreases a.len(),
{
    if a.len() > 0 && a[0] != sep {
        lemma_field_len_le(a.drop_first(), sep);
    }
}

/// The characters before `field_len` are not the separator, and the one at
/// it, if any, is.
pub proof fn lemma_field_len_scan_back(a: Seq<char>, sep: char)
    ensures
        forall|i: int| 0 <= i < field_len(a, sep) ==> #[trigger] a[i] != sep,
        field_len(a, sep) < a.len() ==> a[field_len(a, sep) as int] == sep,
    decreases a.len(),
{
    if a.len() > 0 && a[0] != sep {
        lemma_field_len_scan_back(a.drop_first(), sep);
        lemma_field_len_le(a.drop_first(), sep);
        assert forall|i: int| 0 <= i < field_len(a, sep) implies #[trigger] a[i] != sep by {
            if i > 0 {
                assert(a[i] == a.drop_first()[i - 1]);
            }
        }
    }
}

/// Trailing white space is cut from the end of `x + y` as from `y`, and
/// from `x` once `y` is all white space.
pub proof fn lemma_trim_end_concat(x: Seq<char>, y: Seq<char>)
    ensures
        trim_end(x + y) == if trim_end(y).len() > 0 {
            x + trim_end(y)
        } else {
            trim_end(x)
        },
    decreases y.len(),
{
    if y.len() == 0 {
        assert(x + y =~= x);
    } else {
        assert((x + y).last() == y.last());
        if is_space(y.last()) {
            assert((x + y).drop_last() =~= x + y.drop_last());
            lemma_trim_end_concat(x, y.drop_last());
        }
    }
}

/// `split_once` at a first part without the separator.
pub proof fn lemma_split_once_at(w: Seq<char>, r: Seq<char>, sep: char)
    requires
        lacks(w, sep),
    ensures
        split_once(w + seq![sep] + r, sep) == Some((w, r)),
        split_once(w, sep) is None,
{
    lemma_field_len_of_field(w, seq![sep] + r, sep);
    let s = w + seq![sep] + r;
    assert(s =~= w + (seq![sep] + r));
    assert(s.take(w.len() as int) =~= w);
    assert(s.skip(w.len() + 1int) =~= r);
    lemma_field_len_of_field(w, seq![], sep);
    assert(w + Seq::<char>::empty() =~= w);
}

/// The numeral of `n` is a nonempty run of digits worth `n`.
pub proof fn lemma_decimal(n: nat)
    ensures
        decimal(n).len() >= 1,
        all_digits(decimal(n)),
        digits_value(decimal(n)) == n,
    decreases n,
{
    if n >= 10 {
        lemma_decimal(n / 10);
        let d = decimal(n);
        assert(d.drop_last() =~= decimal(n / 10));
        assert((n / 10) * 10 + n % 10 == n) by (nonlinear_arith);
        assert(d.last() == digit_char((n % 10) as int));
        assert(digits_value(d) == digits_value(d.drop_last()) * 10 + digit_value(d.last()));
        assert(digits_value(d.drop_last()) == n / 10);
        assert(digit_value(d.last()) == n % 10);
        assert(digits_value(d) == n);
        assert(digit_value(digit_char((n % 10) as int)) == n % 10);
        assert(is_digit(digit_char((n % 10) as int)));
        assert(all_digits(d)) by {
            assert forall|i: int| 0 <= i < d.len() implies is_digit(#[trigger] d[i]) by {
                if i < d.len() - 1 {
                    assert(d[i] == decimal(n / 10)[i]);
                }
            }
        }
    } else {
        let d = decimal(n);
        assert(d.drop_last() =~= Seq::<char>::empty());
        assert(digits_value(d) == digits_value(d.drop_last()) * 10 + digit_value(d.last()));
        assert(digits_value(d) == n);
        assert(digit_value(digit_char(n as int)) == n);
        assert(is_digit(digit_char(n as int)));
    }
}

/// A digit is neither white space nor a sign nor any separator.
pub proof fn lemma_digit_not_special(c: char)
    requires
        is_digit(c),
    ensures
        !is_space(c),
        c != '+',
        c != ',',
        c != ';',
        c != '\n',
{
}

/// The numeral of `n` reads back as `n`, given that `n` fits.
pub proof fn lemma_parse_decimal(n: nat, max: int)
    requires
        n <= max,
    ensures
        parse_unsigned(decimal(n), max) == Some(n as int),
        no_space(decimal(n)),
        lacks(decimal(n), ','),
        lacks(decimal(n), ';'),
{
    lemma_decimal(n);
    let d = decimal(n);
    assert(is_digit(d[0]));
    lemma_digit_not_special(d[0]);
    assert forall|i: int| 0 <= i < d.len() implies !is_space(#[trigger] d[i]) && d[i] != ','
        && d[i] != ';' by {
        lemma_digit_not_special(d[i]);
    }
}


pub proof fn lemma_lacks_concat(a: Seq<char>, b: Seq<char>, sep: char)
    requires
        lacks(a, sep),
        lacks(b, sep),
    ensures
        lacks(a + b, sep),
{
    assert forall|i: int| 0 <= i < (a + b).len() implies #[trigger] (a + b)[i] != sep by {
        if i >= a.len() {
            assert((a + b)[i] == b[i - a.len()]);
        }
    }
}

/// A single white-space character trims to nothing.
pub proof fn lemma_trim_end_space(c: char)
    requires
        is_space(c),
    ensures
        trim_end(seq![c]) == Seq::<char>::empty(),
{
    assert(seq![c].drop_last() =~= Seq::<char>::empty());
    assert(trim_end(Seq::<char>::empty()) =~= Seq::<char>::empty());
}

} // verus!
