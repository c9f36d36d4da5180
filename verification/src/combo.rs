//! The "best combo" request: a line `START A,B A,B ...` naming a starting
//! number and a hand of tiles is answered with the longest train from the
//! starting number, written `[[a, b], [c, d], ...]`.
use vstd::prelude::*;
use crate::chain::{find_longest_chain, longest_chain};
use crate::number::{int_decimal, law_decimal_chars, law_decimal_round_trip, parse_i32, parsed_i32, push_decimal};
use crate::text::{
    chars_of, comma_fields, law_two_fields, lemma_occurrences_absent, lemma_occurrences_concat,
    occurrences, rows, split_commas, split_whitespace, string_of, words,
};

verus! {

/// The shape that a request line must have: a number, one whitespace
/// character, then one or more `A,B` tiles, each followed by at most one
/// whitespace character.
pub const COMBO_PATTERN: &'static str = "^\\d+\\s(\\d+,\\d+\\s?)+$";

/// The answer to a line that does not have the shape of `COMBO_PATTERN`.
pub const FORMAT_ERROR_MESSAGE: &'static str = "Input format is incorrect";

/// Whether `regex::Regex::new` accepts `pattern`.
pub uninterp spec fn regex_compiles(pattern: Seq<char>) -> bool;

/// What `regex::Regex::is_match` answers for the regex compiled from
/// `pattern` on `haystack`.
pub uninterp spec fn regex_matches(pattern: Seq<char>, haystack: Seq<char>) -> bool;

/// Compiles `pattern` with `regex::Regex::new` and, where that succeeds,
/// tests `haystack` with `regex::Regex::is_match`. Claimed: `None` exactly
/// when the pattern does not compile; otherwise the answer of `is_match`,
/// which depends on the pattern and the haystack alone. What the regex
/// language means is not stated here.
#[verifier::external_body]
fn regex_is_match(pattern: &str, haystack: &str) -> (found: Option<bool>)
    ensures
        found is Some <==> regex_compiles(pattern@),
        found matches Some(b) ==> b == regex_matches(pattern@, haystack@),
{
    match regex::Regex::new(pattern) {
        Ok(re) => Some(re.is_match(haystack)),
        Err(_) => None,
    }
}

/// The tiles that `ws` spells, read left to right: a word of exactly two
/// comma-separated fields is a tile, whose two numbers must both read as
/// `i32` (else there is no answer); any other word is passed over.
pub open spec fn parsed_pairs(ws: Seq<Seq<char>>) -> Option<Seq<(i32, i32)>>
    decreases ws.len(),
{
    if ws.len() == 0 {
        Some(Seq::empty())
    } else {
        match parsed_pairs(ws.drop_last()) {
            None => None,
            Some(ps) => {
                let f = comma_fields(ws.last());
                if f.len() == 2 {
                    match (parsed_i32(f[0]), parsed_i32(f[1])) {
                        (Some(a), Some(b)) => Some(ps.push((a, b))),
                        _ => None,
                    }
                } else {
                    Some(ps)
                }
            }
        }
    }
}

/// A tile written `[a, b]`.
pub open spec fn tile_text(p: (i32, i32)) -> Seq<char> {
    seq!['['] + int_decimal(p.0 as int) + seq![',', ' '] + int_decimal(p.1 as int) + seq![']']
}

/// The tiles of `c` written one after another, separated by `, `.
pub open spec fn tiles_text(c: Seq<(i32, i32)>) -> Seq<char>
    decreases c.len(),
{
    if c.len() == 0 {
        Seq::empty()
    } else if c.len() == 1 {
        tile_text(c[0])
    } else {
        tiles_text(c.drop_last()) + seq![',', ' '] + tile_text(c.last())
    }
}

/// A train written `[[a, b], [c, d], ...]`.
pub open spec fn chain_text(c: Seq<(i32, i32)>) -> Seq<char> {
    seq!['['] + tiles_text(c) + seq![']']
}

/// The answer to request line `input`, where `format_ok` tells whether the
/// line has the shape of `COMBO_PATTERN`: the format message where it does
/// not; otherwise the longest train from the number of the first word over
/// the tiles of the other words, or no answer where a number does not read
/// as `i32` (or the line has no word).
pub open spec fn combo_answer(input: Seq<char>, format_ok: bool) -> Option<Seq<char>> {
    if !format_ok {
        Some(FORMAT_ERROR_MESSAGE@)
    } else {
        let ws = words(input);
        if ws.len() == 0 {
            None
        } else {
            match parsed_i32(ws[0]) {
                None => None,
                Some(start) => match parsed_pairs(ws.drop_first()) {
                    None => None,
                    Some(ps) => Some(chain_text(longest_chain(start, ps, Seq::empty()))),
                },
            }
        }
    }
}

/// The word that spells tile `p` in a request line: `a,b`.
pub open spec fn tile_word(p: (i32, i32)) -> Seq<char> {
    int_decimal(p.0 as int) + seq![','] + int_decimal(p.1 as int)
}

/// Word `w` is read as tile `p`: it has exactly two comma-separated fields,
/// which read as the numbers of `p`.
pub open spec fn reads_as_tile(w: Seq<char>, p: (i32, i32)) -> bool {
    &&& comma_fields(w).len() == 2
    &&& parsed_i32(comma_fields(w)[0]) == Some(p.0)
    &&& parsed_i32(comma_fields(w)[1]) == Some(p.1)
}

proof fn lemma_decimal_has_no(n: int, c: char)
    requires
        c == ',' || c == '[' || c == ']',
    ensures
        forall|i: int| 0 <= i < int_decimal(n).len() ==> #[trigger] int_decimal(n)[i] != c,
        occurrences(int_decimal(n), c) == 0,
{
    law_decimal_chars(n);
    assert(',' as u32 == 44 && '[' as u32 == 91 && ']' as u32 == 93 && '-' as u32 == 45);
    lemma_occurrences_absent(int_decimal(n), c);
}

/// The word `a,b` written for a tile is read back as that tile.
pub proof fn law_tile_word_reads_back(p: (i32, i32))
    ensures
        reads_as_tile(tile_word(p), p),
{
    lemma_decimal_has_no(p.0 as int, ',');
    lemma_decimal_has_no(p.1 as int, ',');
    law_two_fields(int_decimal(p.0 as int), int_decimal(p.1 as int));
    law_decimal_round_trip(p.0);
    law_decimal_round_trip(p.1);
}

/// Every tile word is read, and in order: where each of the words `ws`
/// reads as the tile of `hand` at the same place, the hand read is exactly
/// `hand`.
pub proof fn law_every_tile_word_is_read(ws: Seq<Seq<char>>, hand: Seq<(i32, i32)>)
    requires
        ws.len() == hand.len(),
        forall|i: int| 0 <= i < ws.len() ==> reads_as_tile(#[trigger] ws[i], hand[i]),
    ensures
        parsed_pairs(ws) == Some(hand),
    decreases ws.len(),
{
    if ws.len() == 0 {
        assert(hand =~= Seq::<(i32, i32)>::empty());
    } else {
        let k = ws.len() - 1;
        assert forall|i: int| 0 <= i < ws.drop_last().len() implies reads_as_tile(
            #[trigger] ws.drop_last()[i],
            hand.drop_last()[i],
        ) by {
            assert(ws.drop_last()[i] == ws[i]);
            assert(reads_as_tile(ws[i], hand[i]));
        }
        law_every_tile_word_is_read(ws.drop_last(), hand.drop_last());
        assert(reads_as_tile(ws[k], hand[k]));
        assert(hand.drop_last().push((hand[k].0, hand[k].1)) =~= hand);
    }
}

/// A well-formed request line is answered with a longest train over its
/// whole hand: where the first word reads as `start` and each later word
/// reads as the tile of `hand` at the same place, the answer is the longest
/// train from `start` over all of `hand`.
pub proof fn law_answer_searches_whole_hand(input: Seq<char>, start: i32, hand: Seq<(i32, i32)>)
    requires
        words(input).len() == hand.len() + 1,
        parsed_i32(words(input)[0]) == Some(start),
        forall|i: int|
            0 <= i < hand.len() ==> reads_as_tile(#[trigger] words(input)[i + 1], hand[i]),
    ensures
        combo_answer(input, true) == Some(chain_text(longest_chain(start, hand, Seq::empty()))),
{
    let ws = words(input).drop_first();
    assert forall|i: int| 0 <= i < ws.len() implies reads_as_tile(#[trigger] ws[i], hand[i]) by {
        assert(ws[i] == words(input)[i + 1]);
    }
    law_every_tile_word_is_read(ws, hand);
}

/// The empty train is written `[]`.
pub proof fn law_chain_text_empty()
    ensures
        chain_text(Seq::empty()) == seq!['[', ']'],
{
    assert(chain_text(Seq::empty()) =~= seq!['[', ']']);
}

/// A train of one tile is written `[[a, b]]`.
pub proof fn law_chain_text_single(p: (i32, i32))
    ensures
        chain_text(seq![p]) == seq!['['] + tile_text(p) + seq![']'],
{
}

/// Laying one more tile adds `, [a, b]` before the closing bracket: the text
/// of `c` followed by `p` is the text of `c` without its last `]`, then
/// `, `, the tile and `]`.
pub proof fn law_chain_text_append(c: Seq<(i32, i32)>, p: (i32, i32))
    requires
        c.len() > 0,
    ensures
        chain_text(c.push(p)) == chain_text(c).drop_last() + seq![',', ' '] + tile_text(p) + seq![
            ']',
        ],
{
    assert(c.push(p).drop_last() =~= c);
    assert(chain_text(c).drop_last() =~= seq!['['] + tiles_text(c));
    assert(chain_text(c.push(p)) =~= chain_text(c).drop_last() + seq![',', ' '] + tile_text(p)
        + seq![']']);
}

proof fn lemma_tile_text_counts(p: (i32, i32))
    ensures
        occurrences(tile_text(p), '[') == 1,
        occurrences(tile_text(p), ']') == 1,
{
    let a = int_decimal(p.0 as int);
    let b = int_decimal(p.1 as int);
    lemma_decimal_has_no(p.0 as int, '[');
    lemma_decimal_has_no(p.1 as int, '[');
    lemma_decimal_has_no(p.0 as int, ']');
    lemma_decimal_has_no(p.1 as int, ']');
    let o = seq!['['];
    let sep = seq![',', ' '];
    let cl = seq![']'];
    reveal_with_fuel(occurrences, 3);
    assert(occurrences(o, '[') == 1 && occurrences(o, ']') == 0);
    assert(occurrences(cl, '[') == 0 && occurrences(cl, ']') == 1);
    assert(occurrences(sep, '[') == 0 && occurrences(sep, ']') == 0);
    lemma_occurrences_concat(o, a, '[');
    lemma_occurrences_concat(o + a, sep, '[');
    lemma_occurrences_concat(o + a + sep, b, '[');
    lemma_occurrences_concat(o + a + sep + b, cl, '[');
    lemma_occurrences_concat(o, a, ']');
    lemma_occurrences_concat(o + a, sep, ']');
    lemma_occurrences_concat(o + a + sep, b, ']');
    lemma_occurrences_concat(o + a + sep + b, cl, ']');
}

/// The text of a train holds one `[a, b]` group per tile: it has exactly
/// one `[` and one `]` more than the train has tiles.
pub proof fn law_chain_text_tile_count(c: Seq<(i32, i32)>)
    ensures
        occurrences(chain_text(c), '[') == c.len() + 1,
        occurrences(chain_text(c), ']') == c.len() + 1,
    decreases c.len(),
{
    let o = seq!['['];
    let sep = seq![',', ' '];
    let cl = seq![']'];
    reveal_with_fuel(occurrences, 3);
    assert(occurrences(o, '[') == 1 && occurrences(o, ']') == 0);
    assert(occurrences(cl, '[') == 0 && occurrences(cl, ']') == 1);
    assert(occurrences(sep, '[') == 0 && occurrences(sep, ']') == 0);
    if c.len() == 0 {
        law_chain_text_empty();
        assert(seq!['[', ']'] =~= o + cl);
        lemma_occurrences_concat(o, cl, '[');
        lemma_occurrences_concat(o, cl, ']');
    } else if c.len() == 1 {
        let p = c[0];
        assert(c =~= seq![p]);
        lemma_tile_text_counts(p);
        lemma_occurrences_concat(o, tile_text(p), '[');
        lemma_occurrences_concat(o + tile_text(p), cl, '[');
        lemma_occurrences_concat(o, tile_text(p), ']');
        lemma_occurrences_concat(o + tile_text(p), cl, ']');
    } else {
        let d = c.drop_last();
        let p = c.last();
        assert(d.push(p) =~= c);
        law_chain_text_tile_count(d);
        law_chain_text_append(d, p);
        lemma_tile_text_counts(p);
        let t = chain_text(d);
        let head = t.drop_last();
        assert(t.last() == ']');
        assert(occurrences(head, '[') == occurrences(t, '['));
        assert(occurrences(head, ']') + 1 == occurrences(t, ']'));
        lemma_occurrences_concat(head, sep, '[');
        lemma_occurrences_concat(head + sep, tile_text(p), '[');
        lemma_occurrences_concat(head + sep + tile_text(p), cl, '[');
        lemma_occurrences_concat(head, sep, ']');
        lemma_occurrences_concat(head + sep, tile_text(p), ']');
        lemma_occurrences_concat(head + sep + tile_text(p), cl, ']');
    }
}

proof fn lemma_parsed_pairs_prefix_fails(ws: Seq<Seq<char>>, i: int)
    requires
        0 <= i <= ws.len(),
        parsed_pairs(ws.take(i)) is None,
    ensures
        parsed_pairs(ws) is None,
    decreases ws.len(),
{
    if i < ws.len() {
        assert(ws.drop_last().take(i) =~= ws.take(i));
        lemma_parsed_pairs_prefix_fails(ws.drop_last(), i);
    } else {
        assert(ws.take(i) =~= ws);
    }
}

/// Writes train `chain` as `[[a, b], [c, d], ...]`.
pub fn format_chain(chain: &Vec<(i32, i32)>) -> (text: String)
    ensures
        text@ == chain_text(chain@),
{
    let mut out: Vec<char> = Vec::new();
    out.push('[');
    let n = chain.len();
    let mut i: usize = 0;
    assert(out@ =~= seq!['['] + tiles_text(chain@.take(0)));
    while i < n
        invariant
            n == chain@.len(),
            i <= n,
            out@ == seq!['['] + tiles_text(chain@.take(i as int)),
        decreases n - i,
    {
        let ghost before = out@;
        let (a, b) = chain[i];
        if i > 0 {
            out.push(',');
            out.push(' ');
        }
        out.push('[');
        push_decimal(&mut out, a);
        out.push(',');
        out.push(' ');
        push_decimal(&mut out, b);
        out.push(']');
        assert(chain@.take(i + 1).drop_last() =~= chain@.take(i as int));
        assert(chain@.take(i + 1).last() == (a, b));
        if i > 0 {
            assert(out@ =~= before + seq![',', ' '] + tile_text((a, b)));
        } else {
            assert(out@ =~= before + tile_text((a, b)));
            assert(tiles_text(chain@.take(0)) =~= Seq::<char>::empty());
        }
        i += 1;
    }
    out.push(']');
    assert(chain@.take(n as int) =~= chain@);
    assert(out@ =~= chain_text(chain@));
    string_of(&out)
}

/// Answers request line `input` given whether it has the shape of
/// `COMBO_PATTERN` (see `combo_answer`).
pub fn best_combo_from(input: &str, format_ok: bool) -> (combo: Option<String>)
    ensures
        combo.deep_view() == combo_answer(input@, format_ok),
{
    if !format_ok {
        return Some(String::from_str(FORMAT_ERROR_MESSAGE));
    }
    let chars = chars_of(input);
    let ws = split_whitespace(&chars);
    let ghost spelt = rows(ws@);
    if ws.len() == 0 {
        return None;
    }
    let start = match parse_i32(&ws[0]) {
        Some(v) => v,
        None => {
            return None;
        },
    };
    let mut pairs: Vec<(i32, i32)> = Vec::new();
    let n = ws.len();
    let mut k: usize = 1;
    assert(spelt.drop_first().take(0) =~= Seq::<Seq<char>>::empty());
    while k < n
        invariant
            n == ws@.len(),
            spelt == rows(ws@),
            spelt == words(input@),
            format_ok,
            parsed_i32(spelt[0]) == Some(start),
            1 <= k <= n,
            parsed_pairs(spelt.drop_first().take(k - 1)) == Some(pairs@),
        decreases n - k,
    {
        let fields = split_commas(&ws[k]);
        let ghost prefix = spelt.drop_first().take(k as int);
        assert(prefix.drop_last() =~= spelt.drop_first().take(k - 1));
        assert(prefix.last() == ws@[k as int]@);
        assert(fields.len() == 2 ==> comma_fields(prefix.last()) == rows(fields@));
        if fields.len() == 2 {
            assert(rows(fields@)[0] == fields@[0]@);
            assert(rows(fields@)[1] == fields@[1]@);
            let a = match parse_i32(&fields[0]) {
                Some(v) => v,
                None => {
                    proof {
                        lemma_parsed_pairs_prefix_fails(spelt.drop_first(), k as int);
                    }
                    return None;
                },
            };
            let b = match parse_i32(&fields[1]) {
                Some(v) => v,
                None => {
                    proof {
                        lemma_parsed_pairs_prefix_fails(spelt.drop_first(), k as int);
                    }
                    return None;
                },
            };
            pairs.push((a, b));
        }
        k += 1;
    }
    assert(spelt.drop_first().take(n - 1) =~= spelt.drop_first());
    let chain = find_longest_chain(start, pairs.as_slice(), Vec::new());
    Some(format_chain(&chain))
}

/// Answers request line `input` (see `combo_answer`), testing its shape with
/// the regex `COMBO_PATTERN`, which must compile.
pub fn calculate_best_combo(input: &str) -> (combo: Option<String>)
    requires
        regex_compiles(COMBO_PATTERN@),
    ensures
        combo.deep_view() == combo_answer(input@, regex_matches(COMBO_PATTERN@, input@)),
{
    match regex_is_match(COMBO_PATTERN, input) {
        Some(format_ok) => best_combo_from(input, format_ok),
        None => {
            proof {
                assert(false);
            }
            None
        },
    }
}

/// Answers request line `input` as `calculate_best_combo` does, or gives
/// `None` where `COMBO_PATTERN` does not compile.
pub fn try_calculate_best_combo(input: &str) -> (combo: Option<Option<String>>)
    ensures
        combo is None <==> !regex_compiles(COMBO_PATTERN@),
        combo matches Some(c) ==> c.deep_view() == combo_answer(
            input@,
            regex_matches(COMBO_PATTERN@, input@),
        ),
{
    match regex_is_match(COMBO_PATTERN, input) {
        Some(_) => Some(calculate_best_combo(input)),
        None => None,
    }
}

} // verus!
