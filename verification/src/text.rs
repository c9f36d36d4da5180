//! Characters and words: whitespace, splitting a line into words and a word
//! into comma-separated fields, and moving between `str`, `String` and
//! vectors of characters.
use vstd::prelude::*;

verus! {

/// The characters that Unicode gives the White_Space property, which is what
/// `char::is_whitespace` tests and what `str::split_whitespace` splits on.
pub open spec fn is_white_space(c: char) -> bool {
    let v = c as u32;
    ||| 9 <= v <= 13
    ||| v == 32
    ||| v == 0x85
    ||| v == 0xa0
    ||| v == 0x1680
    ||| 0x2000 <= v <= 0x200a
    ||| v == 0x2028
    ||| v == 0x2029
    ||| v == 0x202f
    ||| v == 0x205f
    ||| v == 0x3000
}

/// Whether `c` is a Unicode whitespace character.
pub fn is_white_space_char(c: char) -> (b: bool)
    ensures
        b == is_white_space(c),
{
    let v = c as u32;
    (9 <= v && v <= 13) || v == 32 || v == 0x85 || v == 0xa0 || v == 0x1680 || (0x2000 <= v && v
        <= 0x200a) || v == 0x2028 || v == 0x2029 || v == 0x202f || v == 0x205f || v == 0x3000
}

/// The contents of a vector of character vectors.
pub open spec fn rows(v: Seq<Vec<char>>) -> Seq<Seq<char>> {
    v.map_values(|t: Vec<char>| t@)
}

/// Reading `s` from the left: the words completed so far and the word being
/// read.
pub open spec fn scan_words(s: Seq<char>) -> (Seq<Seq<char>>, Seq<char>)
    decreases s.len(),
{
    if s.len() == 0 {
        (Seq::empty(), Seq::empty())
    } else {
        let (done, word) = scan_words(s.drop_last());
        let c = s.last();
        if is_white_space(c) {
            if word.len() > 0 {
                (done.push(word), Seq::empty())
            } else {
                (done, word)
            }
        } else {
            (done, word.push(c))
        }
    }
}

/// The words of `s`: its maximal runs of non-whitespace characters, in
/// order (what `str::split_whitespace` yields).
pub open spec fn words(s: Seq<char>) -> Seq<Seq<char>> {
    let (done, word) = scan_words(s);
    if word.len() > 0 {
        done.push(word)
    } else {
        done
    }
}

/// Reading `s` from the left: the fields completed so far and the field
/// being read.
pub open spec fn scan_fields(s: Seq<char>) -> (Seq<Seq<char>>, Seq<char>)
    decreases s.len(),
{
    if s.len() == 0 {
        (Seq::empty(), Seq::empty())
    } else {
        let (done, field) = scan_fields(s.drop_last());
        let c = s.last();
        if c == ',' {
            (done.push(field), Seq::empty())
        } else {
            (done, field.push(c))
        }
    }
}

/// The pieces of `s` between commas, empty ones included (what
/// `str::split(',')` yields).
pub open spec fn comma_fields(s: Seq<char>) -> Seq<Seq<char>> {
    let (done, field) = scan_fields(s);
    done.push(field)
}

/// No character of `w` is whitespace.
pub open spec fn blank_free(w: Seq<char>) -> bool {
    forall|j: int| 0 <= j < w.len() ==> !is_white_space(#[trigger] w[j])
}

proof fn lemma_scan_words(s: Seq<char>)
    ensures
        forall|i: int|
            0 <= i < scan_words(s).0.len() ==> #[trigger] scan_words(s).0[i].len() > 0
                && blank_free(scan_words(s).0[i]),
        blank_free(scan_words(s).1),
    decreases s.len(),
{
    if s.len() > 0 {
        lemma_scan_words(s.drop_last());
        let (done, word) = scan_words(s.drop_last());
        let c = s.last();
        if !is_white_space(c) {
            let w = word.push(c);
            assert forall|j: int| 0 <= j < w.len() implies !is_white_space(#[trigger] w[j]) by {
                if j < word.len() {
                    assert(w[j] == word[j]);
                }
            }
        }
    }
}

/// Every word of a line is non-empty and holds no whitespace.
pub proof fn law_words_are_nonblank(s: Seq<char>)
    ensures
        forall|i: int|
            0 <= i < words(s).len() ==> #[trigger] words(s)[i].len() > 0 && blank_free(words(s)[i]),
{
    lemma_scan_words(s);
}

proof fn lemma_scan_words_concat(p: Seq<char>, b: Seq<char>)
    requires
        scan_words(p).1.len() == 0,
    ensures
        scan_words(p + b) == (scan_words(p).0 + scan_words(b).0, scan_words(b).1),
    decreases b.len(),
{
    if b.len() == 0 {
        assert(p + b =~= p);
        assert(scan_words(p).0 + scan_words(b).0 =~= scan_words(p).0);
        assert(scan_words(p).1 =~= scan_words(b).1);
    } else {
        lemma_scan_words_concat(p, b.drop_last());
        assert((p + b).drop_last() =~= p + b.drop_last());
        assert((p + b).last() == b.last());
        let d = scan_words(p).0;
        let (bd, bw) = scan_words(b.drop_last());
        assert((d + bd).push(bw) =~= d + bd.push(bw));
    }
}

proof fn lemma_scan_words_blank_free(w: Seq<char>)
    requires
        blank_free(w),
    ensures
        scan_words(w) == (Seq::<Seq<char>>::empty(), w),
    decreases w.len(),
{
    if w.len() > 0 {
        assert(blank_free(w.drop_last())) by {
            assert forall|j: int| 0 <= j < w.drop_last().len() implies !is_white_space(
                #[trigger] w.drop_last()[j],
            ) by {
                assert(w.drop_last()[j] == w[j]);
            }
        }
        lemma_scan_words_blank_free(w.drop_last());
        assert(!is_white_space(w[w.len() - 1]));
        assert(w.drop_last().push(w.last()) =~= w);
    } else {
        assert(w =~= Seq::<char>::empty());
    }
}

/// A line without words has none: the empty line gives no word.
pub proof fn law_words_of_empty()
    ensures
        words(Seq::empty()).len() == 0,
{
}

/// A non-empty run of non-whitespace characters is one word.
pub proof fn law_words_of_one_word(w: Seq<char>)
    requires
        w.len() > 0,
        blank_free(w),
    ensures
        words(w) == seq![w],
{
    lemma_scan_words_blank_free(w);
    assert(Seq::<Seq<char>>::empty().push(w) =~= seq![w]);
}

/// A whitespace character separates words: the words of `a`, a whitespace
/// character, then `b` are the words of `a` followed by the words of `b`.
pub proof fn law_words_split_at_white_space(a: Seq<char>, c: char, b: Seq<char>)
    requires
        is_white_space(c),
    ensures
        words(a + seq![c] + b) == words(a) + words(b),
{
    let ac = a + seq![c];
    assert(ac.drop_last() =~= a);
    assert(ac.last() == c);
    assert(scan_words(ac).0 == words(a));
    lemma_scan_words_concat(ac, b);
    let (b0, b1) = scan_words(b);
    if b1.len() > 0 {
        assert((words(a) + b0).push(b1) =~= words(a) + b0.push(b1));
    }
}

/// How many times `c` occurs in `s`.
pub open spec fn occurrences(s: Seq<char>, c: char) -> nat
    decreases s.len(),
{
    if s.len() == 0 {
        0
    } else {
        occurrences(s.drop_last(), c) + if s.last() == c {
            1nat
        } else {
            0nat
        }
    }
}

/// Occurrences in two strings put together add up.
pub proof fn lemma_occurrences_concat(a: Seq<char>, b: Seq<char>, c: char)
    ensures
        occurrences(a + b, c) == occurrences(a, c) + occurrences(b, c),
    decreases b.len(),
{
    if b.len() == 0 {
        assert(a + b =~= a);
    } else {
        lemma_occurrences_concat(a, b.drop_last(), c);
        assert((a + b).drop_last() =~= a + b.drop_last());
    }
}

/// A character that `s` does not hold occurs in it zero times.
pub proof fn lemma_occurrences_absent(s: Seq<char>, c: char)
    requires
        forall|i: int| 0 <= i < s.len() ==> #[trigger] s[i] != c,
    ensures
        occurrences(s, c) == 0,
    decreases s.len(),
{
    if s.len() > 0 {
        assert forall|i: int| 0 <= i < s.drop_last().len() implies #[trigger] s.drop_last()[i]
            != c by {
            assert(s.drop_last()[i] == s[i]);
        }
        lemma_occurrences_absent(s.drop_last(), c);
    }
}

proof fn lemma_scan_fields_comma_free_tail(p: Seq<char>, t: Seq<char>)
    requires
        forall|i: int| 0 <= i < t.len() ==> #[trigger] t[i] != ',',
    ensures
        scan_fields(p + t) == (scan_fields(p).0, scan_fields(p).1 + t),
    decreases t.len(),
{
    if t.len() == 0 {
        assert(p + t =~= p);
        assert(scan_fields(p).1 + t =~= scan_fields(p).1);
    } else {
        assert forall|i: int| 0 <= i < t.drop_last().len() implies #[trigger] t.drop_last()[i]
            != ',' by {
            assert(t.drop_last()[i] == t[i]);
        }
        lemma_scan_fields_comma_free_tail(p, t.drop_last());
        assert((p + t).drop_last() =~= p + t.drop_last());
        assert((p + t).last() == t.last());
        assert(t[t.len() - 1] != ',');
        assert((scan_fields(p).1 + t.drop_last()).push(t.last()) =~= scan_fields(p).1 + t);
    }
}

/// Splitting `x,y` at its commas, where neither `x` nor `y` holds a comma,
/// gives `x` and `y`.
pub proof fn law_two_fields(x: Seq<char>, y: Seq<char>)
    requires
        forall|i: int| 0 <= i < x.len() ==> #[trigger] x[i] != ',',
        forall|i: int| 0 <= i < y.len() ==> #[trigger] y[i] != ',',
    ensures
        comma_fields(x + seq![','] + y) == seq![x, y],
{
    let e = Seq::<char>::empty();
    lemma_scan_fields_comma_free_tail(e, x);
    assert(e + x =~= x);
    let xc = x + seq![','];
    assert(xc.drop_last() =~= x);
    assert(scan_fields(xc) == (Seq::<Seq<char>>::empty().push(x), e));
    lemma_scan_fields_comma_free_tail(xc, y);
    assert(e + y =~= y);
    assert(comma_fields(x + seq![','] + y) =~= seq![x, y]);
}

proof fn lemma_rows_push(v: Seq<Vec<char>>, t: Vec<char>)
    ensures
        rows(v.push(t)) == rows(v).push(t@),
{
    assert(rows(v.push(t)) =~= rows(v).push(t@));
}

/// Splits `s` into its words.
pub fn split_whitespace(s: &Vec<char>) -> (w: Vec<Vec<char>>)
    ensures
        rows(w@) == words(s@),
{
    let mut done: Vec<Vec<char>> = Vec::new();
    let mut word: Vec<char> = Vec::new();
    let n = s.len();
    let mut i: usize = 0;
    assert(rows(done@) =~= Seq::<Seq<char>>::empty());
    while i < n
        invariant
            n == s@.len(),
            i <= n,
            (rows(done@), word@) == scan_words(s@.take(i as int)),
        decreases n - i,
    {
        let c = s[i];
        assert(s@.take(i + 1).drop_last() =~= s@.take(i as int));
        if is_white_space_char(c) {
            if word.len() > 0 {
                proof {
                    lemma_rows_push(done@, word);
                }
                done.push(word);
                word = Vec::new();
            }
        } else {
            word.push(c);
        }
        i += 1;
    }
    assert(s@.take(n as int) =~= s@);
    if word.len() > 0 {
        proof {
            lemma_rows_push(done@, word);
        }
        done.push(word);
    }
    done
}

/// Splits `s` at its commas.
pub fn split_commas(s: &Vec<char>) -> (f: Vec<Vec<char>>)
    ensures
        rows(f@) == comma_fields(s@),
{
    let mut done: Vec<Vec<char>> = Vec::new();
    let mut field: Vec<char> = Vec::new();
    let n = s.len();
    let mut i: usize = 0;
    assert(rows(done@) =~= Seq::<Seq<char>>::empty());
    while i < n
        invariant
            n == s@.len(),
            i <= n,
            (rows(done@), field@) == scan_fields(s@.take(i as int)),
        decreases n - i,
    {
        let c = s[i];
        assert(s@.take(i + 1).drop_last() =~= s@.take(i as int));
        if c == ',' {
            proof {
                lemma_rows_push(done@, field);
            }
            done.push(field);
            field = Vec::new();
        } else {
            field.push(c);
        }
        i += 1;
    }
    assert(s@.take(n as int) =~= s@);
    proof {
        lemma_rows_push(done@, field);
    }
    done.push(field);
    done
}

/// The characters of `s`, in order.
pub fn chars_of(s: &str) -> (v: Vec<char>)
    ensures
        v@ == s@,
{
    let n = s.unicode_len();
    let mut v: Vec<char> = Vec::new();
    let mut i: usize = 0;
    while i < n
        invariant
            n == s@.len(),
            i <= n,
            v@ == s@.take(i as int),
        decreases n - i,
    {
        v.push(s.get_char(i));
        i += 1;
        assert(v@ =~= s@.take(i as int));
    }
    assert(s@.take(n as int) =~= s@);
    v
}

/// Appends `c` to `s` (`String::push`).
#[verifier::external_body]
fn push_char(s: &mut String, c: char)
    ensures
        final(s)@ == old(s)@.push(c),
{
    s.push(c)
}

/// The string made of the characters of `chars`.
pub fn string_of(chars: &Vec<char>) -> (s: String)
    ensures
        s@ == chars@,
{
    let mut s = String::new();
    let n = chars.len();
    let mut i: usize = 0;
    while i < n
        invariant
            n == chars@.len(),
            i <= n,
            s@ == chars@.take(i as int),
        decreases n - i,
    {
        push_char(&mut s, chars[i]);
        i += 1;
        assert(s@ =~= chars@.take(i as int));
    }
    assert(chars@.take(n as int) =~= chars@);
    s
}

} // verus!
