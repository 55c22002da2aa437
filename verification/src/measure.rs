//! Laws of measures: how texts are shortened, priced, compared and keyed.
use vstd::prelude::*;
use vstd::set_lib::lemma_set_intersect_union_lens;

use crate::chars::{
    ascii_digit, decimal, decimal_int, digit_char, hex, join, lower, text_less, text_or_empty, trim,
    trim_end, white_space, word_scan, words,
};
use crate::digits::{digit_step, nearest, DIGITS_24, ONE};
use crate::distill::fit;
use crate::model::{token_cost, visible_chars, MemoryNodeKind, SpanModel};
use crate::order::{
    lemma_ranked_contains, lemma_ranked_in_order, lemma_ranked_keeps_rows, ranked, Ranking,
};
use crate::imports::{record_span, record_trace};
use crate::json::{json_words, JsonModel};
use crate::ledger::direct_event;
use crate::projection::{base_key, node_id_of};
use crate::rows::{NodeModel, ScopeKey};
use crate::text::{
    all_digits, canonical_key_of, concise_form, edge_mark, fitting, fnv_texts, normal_form,
    overlap_of, overlap_share, searchable, share_of, stable_id_of, stop_word, strip_end,
    strip_marks, strip_start, term_set, term_weight, terms_are_the_searchable_words, terms_of,
    top_terms_of, utf8_len, ByTermWeight,
};

verus! {

// ---------------------------------------------------------------------------
// Words
// ---------------------------------------------------------------------------
/// The characters of some words, one word after the other.
pub open spec fn run_together(ws: Seq<Seq<char>>) -> Seq<char>
    decreases ws.len(),
{
    if ws.len() == 0 {
        Seq::empty()
    } else {
        run_together(ws.drop_last()) + ws.last()
    }
}

proof fn lemma_scan(s: Seq<char>)
    ensures
        ({
            let (done, open) = word_scan(s);
            &&& run_together(done) + open == s.filter(|c: char| !white_space(c))
            &&& forall|i: int| 0 <= i < done.len() ==> (#[trigger] done[i]).len() > 0
            &&& forall|i: int, k: int|
                0 <= i < done.len() && 0 <= k < done[i].len() ==> !white_space(
                    #[trigger] done[i][k],
                )
            &&& forall|k: int| 0 <= k < open.len() ==> !white_space(#[trigger] open[k])
        }),
    decreases s.len(),
{
    reveal(Seq::filter);
    if s.len() > 0 {
        lemma_scan(s.drop_last());
        let (done, open) = word_scan(s.drop_last());
        let (after, left) = word_scan(s);
        let kept = s.drop_last().filter(|c: char| !white_space(c));
        if white_space(s.last()) {
            if open.len() > 0 {
                assert(after == done.push(open));
                assert(after.drop_last() =~= done);
                assert(run_together(after) + left =~= run_together(done) + open);
            }
        } else {
            assert(run_together(after) + left =~= (run_together(done) + open).push(s.last()));
        }
    }
}

/// The words of a text are what stands between its white space: none is empty, none holds white
/// space, and run together they are the text without its white space.
pub proof fn words_stand_between_white_space(s: Seq<char>)
    ensures
        run_together(words(s)) == s.filter(|c: char| !white_space(c)),
        forall|i: int| 0 <= i < words(s).len() ==> (#[trigger] words(s)[i]).len() > 0,
        forall|i: int, k: int|
            0 <= i < words(s).len() && 0 <= k < words(s)[i].len() ==> !white_space(
                #[trigger] words(s)[i][k],
            ),
{
    lemma_scan(s);
    let (done, open) = word_scan(s);
    if open.len() > 0 {
        assert(done.push(open).drop_last() =~= done);
    } else {
        assert(run_together(done) + open =~= run_together(done));
    }
}

proof fn lemma_scan_on(s: Seq<char>, t: Seq<char>)
    requires
        word_scan(s).1.len() == 0,
    ensures
        word_scan(s + t) == (word_scan(s).0 + word_scan(t).0, word_scan(t).1),
    decreases t.len(),
{
    let (done, open) = word_scan(s);
    if t.len() == 0 {
        assert(s + t =~= s);
        assert(done + word_scan(t).0 =~= done);
        assert(open =~= word_scan(t).1);
    } else {
        lemma_scan_on(s, t.drop_last());
        assert((s + t).drop_last() =~= s + t.drop_last());
        let (front, word) = word_scan(t.drop_last());
        if white_space(t.last()) && word.len() > 0 {
            assert((done + front).push(word) =~= done + front.push(word));
        }
    }
}

/// White space parts words: the words of two texts with white space between them are those of
/// the one and then those of the other, and a text without white space is one word.
pub proof fn white_space_parts_words(s: Seq<char>, gap: char, t: Seq<char>)
    ensures
        white_space(gap) ==> words(s.push(gap) + t) == words(s) + words(t),
        s.len() > 0 && (forall|i: int| 0 <= i < s.len() ==> !white_space(#[trigger] s[i])) ==> words(
            s,
        ) == seq![s],
    decreases s.len(),
{
    if white_space(gap) {
        let before = s.push(gap);
        assert(before.drop_last() =~= s);
        assert(word_scan(before).1.len() == 0);
        assert(word_scan(before).0 == words(s));
        lemma_scan_on(before, t);
        let (done, open) = word_scan(t);
        if open.len() > 0 {
            assert((words(s) + done).push(open) =~= words(s) + done.push(open));
        }
    }
    if s.len() > 0 && forall|i: int| 0 <= i < s.len() ==> !white_space(#[trigger] s[i]) {
        lemma_one_word(s);
        assert(words(s) =~= seq![s]);
    }
}

proof fn lemma_one_word(s: Seq<char>)
    requires
        forall|i: int| 0 <= i < s.len() ==> !white_space(#[trigger] s[i]),
    ensures
        word_scan(s).0.len() == 0,
        word_scan(s).1 == s,
    decreases s.len(),
{
    if s.len() > 0 {
        let front = s.drop_last();
        assert forall|i: int| 0 <= i < front.len() implies !white_space(#[trigger] front[i]) by {
            assert(front[i] == s[i]);
        }
        lemma_one_word(front);
        assert(!white_space(s[s.len() - 1]));
        assert(front.push(s.last()) =~= s);
    } else {
        assert(word_scan(s).1 =~= s);
    }
}

// ---------------------------------------------------------------------------
// Summaries
// ---------------------------------------------------------------------------
proof fn lemma_fitting_most(s: Seq<char>, max: int)
    requires
        0 <= max < utf8_len(s),
    ensures
        0 <= fitting(s, max) < s.len(),
        utf8_len(s.take(fitting(s, max))) <= max,
        utf8_len(s.take(fitting(s, max) + 1)) > max,
    decreases s.len(),
{
    let front = s.drop_last();
    assert(s.take(front.len() as int) =~= front);
    assert(s.take(s.len() as int) =~= s);
    if utf8_len(front) > max {
        lemma_fitting_most(front, max);
        let k = fitting(front, max);
        assert(front.take(k) =~= s.take(k));
        assert(front.take(k + 1) =~= s.take(k + 1));
    }
}

/// A text whose words, with single spaces between, fit is summed up by them. One whose words do
/// not fit is cut where they stop fitting: what is left is the longest beginning that fits,
/// without white space at its end and with three dots behind it.
pub proof fn summaries_keep_what_fits(text: Seq<char>, max: int) -> (k: int)
    requires
        0 <= max,
    ensures
        ({
            let line = join(words(text), " "@);
            let r = concise_form(text, max);
            &&& utf8_len(line) <= max ==> r == line
            &&& utf8_len(line) > max ==> {
                &&& 0 <= k < line.len()
                &&& utf8_len(line.take(k)) <= max
                &&& utf8_len(line.take(k + 1)) > max
                &&& r == trim_end(line.take(k)) + "..."@
            }
        }),
{
    let line = join(words(text), " "@);
    if utf8_len(line) > max {
        lemma_fitting_most(line, max);
    }
    fitting(line, max)
}

// ---------------------------------------------------------------------------
// Tokens
// ---------------------------------------------------------------------------
/// Visible characters add up, white space is not counted, and any other character is counted
/// once.
pub proof fn visible_characters_add_up(a: Seq<char>, b: Seq<char>, c: char)
    ensures
        visible_chars(a + b) == visible_chars(a) + visible_chars(b),
        visible_chars(a) <= a.len(),
        white_space(c) ==> visible_chars(seq![c]) == 0,
        !white_space(c) ==> visible_chars(seq![c]) == 1,
    decreases b.len(), a.len(),
{
    reveal_with_fuel(visible_chars, 2);
    assert(seq![c].drop_last() =~= Seq::empty());
    if b.len() > 0 {
        visible_characters_add_up(a, b.drop_last(), c);
        assert((a + b).drop_last() =~= a + b.drop_last());
    } else {
        assert(a + b =~= a);
        if a.len() > 0 {
            visible_characters_add_up(a.drop_last(), b, c);
            assert(a.drop_last() + b =~= a.drop_last());
        }
    }
}

/// A token pays for four visible characters: a text costs as many as its visible characters
/// fill, the last of them perhaps in part; one that is not empty costs at least one, and the
/// empty text nothing.
pub proof fn a_token_pays_for_four_characters(s: Seq<char>)
    requires
        visible_chars(s) < 0x1_0000_0000,
    ensures
        visible_chars(s) > 0 ==> 4 * (token_cost(s) - 1) < visible_chars(s) <= 4 * token_cost(s),
        visible_chars(s) == 0 && s.len() > 0 ==> token_cost(s) == 1,
        s.len() == 0 ==> token_cost(s) == 0,
{
}

// ---------------------------------------------------------------------------
// Telling terms
// ---------------------------------------------------------------------------
/// The most telling terms of a text are terms of it, at most as many as asked for, the heavier
/// before the lighter; a term that is left out is no heavier than any that is listed.
pub proof fn telling_terms_are_the_heaviest(text: Seq<char>, limit: int, term: Seq<char>)
    requires
        0 <= limit,
    ensures
        ({
            let r = top_terms_of(text, limit);
            &&& r.len() <= limit
            &&& r.contains(term) ==> terms_of(text).contains(term)
            &&& forall|i: int, j: int|
                0 <= i < j < r.len() ==> term_weight(#[trigger] r[i]) >= term_weight(
                    #[trigger] r[j],
                )
            &&& terms_of(text).contains(term) && !r.contains(term) ==> r.len() == limit && forall|
                i: int,
            |
                0 <= i < r.len() ==> term_weight(#[trigger] r[i]) >= term_weight(term)
        }),
{
    let all = terms_of(text);
    let sorted = ranked::<String, ByTermWeight>(all);
    let r = top_terms_of(text, limit);
    lemma_ranked_keeps_rows::<String, ByTermWeight>(all);
    lemma_ranked_in_order::<String, ByTermWeight>(all);
    lemma_ranked_contains::<String, ByTermWeight>(all, term);
    if r.contains(term) {
        let k = choose|k: int| 0 <= k < r.len() && r[k] == term;
        assert(sorted[k] == term);
    }
    assert forall|i: int, j: int| 0 <= i < j < r.len() implies term_weight(#[trigger] r[i])
        >= term_weight(#[trigger] r[j]) by {
        assert(r[i] == sorted[i] && r[j] == sorted[j]);
        assert(!ByTermWeight::before(sorted[j], sorted[i]));
    }
    if all.contains(term) && !r.contains(term) {
        let k = choose|k: int| 0 <= k < sorted.len() && sorted[k] == term;
        if k < r.len() {
            assert(r[k] == term);
        }
        assert forall|i: int| 0 <= i < r.len() implies term_weight(#[trigger] r[i]) >= term_weight(
            term,
        ) by {
            assert(r[i] == sorted[i]);
            assert(!ByTermWeight::before(sorted[k], sorted[i]));
        }
    }
}

/// A term weighs its length, four more for a dot and for a slash each, and two more for an
/// underscore and for a hyphen each, however often they stand in it.
pub proof fn marks_make_terms_heavier(t: Seq<char>)
    ensures
        t.len() <= term_weight(t) <= t.len() + 12,
        !t.contains('.') && !t.contains('/') && !t.contains('_') && !t.contains('-')
            ==> term_weight(t) == t.len(),
        t.contains('.') && !t.contains('/') && !t.contains('_') && !t.contains('-') ==> term_weight(
            t,
        ) == t.len() + 4,
        !t.contains('.') && t.contains('/') && !t.contains('_') && !t.contains('-') ==> term_weight(
            t,
        ) == t.len() + 4,
        !t.contains('.') && !t.contains('/') && t.contains('_') && !t.contains('-') ==> term_weight(
            t,
        ) == t.len() + 2,
        !t.contains('.') && !t.contains('/') && !t.contains('_') && t.contains('-') ==> term_weight(
            t,
        ) == t.len() + 2,
        t.contains('.') && t.contains('/') && t.contains('_') && t.contains('-') ==> term_weight(t)
            == t.len() + 12,
{
}

// ---------------------------------------------------------------------------
// Overlap
// ---------------------------------------------------------------------------
/// Two texts share the terms that both hold, out of those that either holds, and it does not
/// matter which is named first. Texts without a common term share nothing.
pub proof fn shared_terms_are_in_both(a: Seq<char>, b: Seq<char>)
    ensures
        overlap_of(a, b) == overlap_of(b, a),
        overlap_share(a, b) == overlap_share(b, a),
        overlap_of(a, b).0 + overlap_of(a, b).1 == terms_of(a).len() + terms_of(b).len(),
        overlap_of(a, b).0 > 0 <==> exists|t: Seq<char>|
            #[trigger] terms_of(a).contains(t) && terms_of(b).contains(t),
        overlap_of(a, b).0 <= terms_of(a).len(),
        overlap_of(a, b).0 <= terms_of(b).len(),
        overlap_of(a, b).0 == 0 ==> overlap_share(a, b) == 0,
{
    let left = term_set(a);
    let right = term_set(b);
    terms_are_the_searchable_words(a);
    terms_are_the_searchable_words(b);
    terms_of(a).unique_seq_to_set();
    terms_of(b).unique_seq_to_set();
    assert(left.intersect(right) =~= right.intersect(left));
    assert(left.union(right) =~= right.union(left));
    lemma_set_intersect_union_lens(left, right);
    vstd::set_lib::lemma_len_intersect(left, right);
    vstd::set_lib::lemma_len_intersect(right, left);
    let both = left.intersect(right);
    if both.len() > 0 {
        let t = both.choose();
        assert(both.contains(t)) by {
            vstd::set_lib::lemma_set_empty_equivalency_len(both);
        }
        assert(terms_of(a).contains(t) && terms_of(b).contains(t));
    }
    if exists|t: Seq<char>| #[trigger] terms_of(a).contains(t) && terms_of(b).contains(t) {
        let t = choose|t: Seq<char>|
            #[trigger] terms_of(a).contains(t) && terms_of(b).contains(t);
        assert(both.contains(t));
        vstd::set_lib::lemma_set_empty_equivalency_len(both);
    }
}

/// Texts with the same terms share all of them, unless they have none.
pub proof fn same_terms_are_shared_in_full(a: Seq<char>, b: Seq<char>)
    requires
        terms_of(a) == terms_of(b),
        terms_of(a).len() > 0,
    ensures
        overlap_of(a, b) == (terms_of(a).len(), terms_of(a).len()),
        overlap_share(a, b) == ONE,
{
    terms_are_the_searchable_words(a);
    terms_of(a).unique_seq_to_set();
    let all = term_set(a);
    assert(all.intersect(all) =~= all);
    assert(all.union(all) =~= all);
}

proof fn lemma_step(limit: nat, over: nat, under: nat, step: nat)
    requires
        step > 0,
        limit >= 2,
        under > 0,
    ensures
        ({
            let r = digit_step(limit, over, under, step);
            &&& r >= step
            &&& over < limit * under * r
            &&& r == step || 2 * over >= limit * under * r
        }),
    decreases over - step,
{
    if !(over < limit * under * step) {
        assert(limit * under * step >= 2 * step) by (nonlinear_arith)
            requires
                limit >= 2,
                under >= 1,
                step >= 0,
        ;
        lemma_step(limit, over, under, 2 * step);
        assert(limit * under * (2 * step) == 2 * (limit * under * step)) by (nonlinear_arith);
    }
}

proof fn lemma_nearest(limit: nat, over: nat, under: nat)
    requires
        limit >= 2,
        under > 0,
    ensures
        ({
            let q = nearest(limit, over, under);
            let step = digit_step(limit, over, under, 1);
            &&& 2 * (q * under) <= 2 * over + under * step
            &&& 2 * over <= 2 * (q * under) + under * step
        }),
{
    let step = digit_step(limit, over, under, 1);
    lemma_step(limit, over, under, 1);
    let unit = under * step;
    assert(unit > 0) by (nonlinear_arith)
        requires
            under > 0,
            step > 0,
            unit == under * step,
    ;
    let below = over / unit;
    let rest = over % unit;
    assert(over == below * unit + rest && rest < unit) by (nonlinear_arith)
        requires
            unit > 0,
            below == over / unit,
            rest == over % unit,
    ;
    assert((below * step) * under == below * unit) by (nonlinear_arith)
        requires
            unit == under * step,
    ;
    assert(((below + 1) * step) * under == below * unit + unit) by (nonlinear_arith)
        requires
            unit == under * step,
    ;
}

/// A share is the quotient of the shared terms and all terms, up to the rounding to 24 binary
/// digits: it is off by no more than one part in eight million.
pub proof fn shares_are_quotients(shared: nat, total: nat)
    requires
        0 < shared < total < DIGITS_24,
    ensures
        ({
            let exact = shared * (ONE as nat);
            let q = share_of(shared, total) * total;
            &&& 8_000_000 * q <= 8_000_000 * exact + exact
            &&& 8_000_000 * exact <= 8_000_000 * q + exact
        }),
{
    lemma_small(shared);
    lemma_small(total);
    let exact = shared * (ONE as nat);
    let limit = DIGITS_24 as nat;
    let step = digit_step(limit, exact, total, 1);
    lemma_step(limit, exact, total, 1);
    lemma_nearest(limit, exact, total);
    let q = nearest(limit, exact, total);
    let unit = total * step;
    assert(limit * total * step == limit * unit) by (nonlinear_arith)
        requires
            unit == total * step,
    ;
    if step == 1 {
        assert(exact >= ONE) by (nonlinear_arith)
            requires
                exact == shared * (ONE as nat),
                shared >= 1,
        ;
        assert(unit == total);
    }
    assert(8_000_000 * unit <= 2 * exact);
}

proof fn lemma_small(n: nat)
    requires
        n < DIGITS_24,
    ensures
        nearest(DIGITS_24 as nat, n, 1) == n,
{
    assert(digit_step(DIGITS_24 as nat, n, 1, 1) == 1);
    assert(1 * digit_step(DIGITS_24 as nat, n, 1, 1) == 1);
    assert(n / 1 == n && n % 1 == 0);
    assert(n * 1 == n);
}

/// A memory of another kind fits a text by the share of their terms alone; how well one of the
/// same kind fits depends on nothing but that share either.
pub proof fn fits_depend_on_shares(
    text: Seq<char>,
    kind: MemoryNodeKind,
    a: NodeModel,
    b: NodeModel,
)
    ensures
        a.kind != kind ==> fit(text, kind, a) == overlap_share(text, a.text),
        a.kind == b.kind && overlap_share(text, a.text) == overlap_share(text, b.text) ==> fit(
            text,
            kind,
            a,
        ) == fit(text, kind, b),
{
}

// ---------------------------------------------------------------------------
// Keys
// ---------------------------------------------------------------------------
proof fn lemma_hex_len(n: nat, width: nat)
    ensures
        hex(n, width).len() == width,
    decreases width,
{
    if width > 0 {
        lemma_hex_len(n / 16, (width - 1) as nat);
    }
}

/// A stable identifier is its prefix, an underscore and sixteen digits, and depends on nothing
/// but the prefix and the texts.
pub proof fn stable_identifiers_have_one_shape(prefix: Seq<char>, parts: Seq<Seq<char>>)
    ensures
        stable_id_of(prefix, parts).len() == prefix.len() + 17,
        (prefix + "_"@).is_prefix_of(stable_id_of(prefix, parts)),
{
    lemma_hex_len(fnv_texts(parts) as nat, 16);
    reveal_strlit("_");
    assert((prefix + "_"@) =~= stable_id_of(prefix, parts).subrange(
        0,
        (prefix + "_"@).len() as int,
    ));
}

/// The key of a memory begins with its kind and is the same for texts with one normal form.
pub proof fn keys_depend_on_kind_and_normal_form(kind: Seq<char>, a: Seq<char>, b: Seq<char>)
    ensures
        (kind + ":"@).is_prefix_of(canonical_key_of(kind, a)),
        normal_form(a) == normal_form(b) ==> canonical_key_of(kind, a) == canonical_key_of(kind, b),
{
    let opening = kind + ":"@;
    assert(opening =~= canonical_key_of(kind, a).subrange(0, opening.len() as int));
}

// ---------------------------------------------------------------------------
// Numerals and case
// ---------------------------------------------------------------------------
/// The number that some decimal digits stand for.
pub open spec fn value_of(digits: Seq<char>) -> int
    decreases digits.len(),
{
    if digits.len() == 0 {
        0
    } else {
        10 * value_of(digits.drop_last()) + (digits.last() as int - '0' as int)
    }
}

/// A decimal numeral stands for its number, is made of digits, and begins with a zero only where
/// the number is zero.
pub proof fn numerals_read_back(n: nat)
    ensures
        value_of(decimal(n)) == n,
        decimal(n).len() > 0,
        forall|i: int| 0 <= i < decimal(n).len() ==> '0' <= #[trigger] decimal(n)[i] <= '9',
        n > 0 ==> decimal(n)[0] != '0',
        n == 0 ==> decimal(n).len() == 1,
    decreases n,
{
    reveal_with_fuel(value_of, 2);
    if n < 10 {
        assert(seq![digit_char(n as int)].drop_last() =~= Seq::empty());
    } else {
        numerals_read_back(n / 10);
        let front = decimal(n / 10);
        assert(decimal(n).drop_last() =~= front);
    }
}

/// A negative numeral is a minus sign and the numeral of the number without it.
pub proof fn negative_numerals_have_a_sign(n: int)
    ensures
        n >= 0 ==> decimal_int(n) == decimal(n as nat),
        n < 0 ==> decimal_int(n) == seq!['-'] + decimal((-n) as nat),
{
}

/// Lower case changes the letters from A to Z and nothing else, and what is in lower case stays.
pub proof fn lower_case_changes_letters_alone(s: Seq<char>, i: int)
    requires
        0 <= i < s.len(),
    ensures
        lower(s).len() == s.len(),
        'A' <= s[i] <= 'Z' ==> lower(s)[i] as int == s[i] as int + 32,
        !('A' <= s[i] <= 'Z') ==> lower(s)[i] == s[i],
        lower(lower(s)) == lower(s),
{
    assert(lower(lower(s)) =~= lower(s));
}

// ---------------------------------------------------------------------------
// What is searched by
// ---------------------------------------------------------------------------
/// A word that tells something: none of the words that stand in any text.
pub open spec fn telling(t: Seq<char>) -> bool {
    &&& t != "a"@
    &&& t != "about"@
    &&& t != "after"@
    &&& t != "all"@
    &&& t != "also"@
    &&& t != "an"@
    &&& t != "and"@
    &&& t != "are"@
    &&& t != "as"@
    &&& t != "at"@
    &&& t != "be"@
    &&& t != "by"@
    &&& t != "can"@
    &&& t != "for"@
    &&& t != "from"@
    &&& t != "had"@
    &&& t != "has"@
    &&& t != "have"@
    &&& t != "if"@
    &&& t != "in"@
    &&& t != "into"@
    &&& t != "is"@
    &&& t != "it"@
    &&& t != "its"@
    &&& t != "of"@
    &&& t != "on"@
    &&& t != "or"@
    &&& t != "our"@
    &&& t != "should"@
    &&& t != "so"@
    &&& t != "that"@
    &&& t != "the"@
    &&& t != "their"@
    &&& t != "then"@
    &&& t != "there"@
    &&& t != "this"@
    &&& t != "to"@
    &&& t != "use"@
    &&& t != "was"@
    &&& t != "we"@
    &&& t != "when"@
    &&& t != "where"@
    &&& t != "with"@
    &&& t != "without"@
    &&& t != "you"@
    &&& t != "your"@
}

/// A word of a text's normal form, without the marks at its ends, is a term of the text if and
/// only if it has at least three characters, not all of them digits, and tells something; and a
/// text has no other terms.
pub proof fn telling_words_are_terms(text: Seq<char>, k: int, t: Seq<char>)
    ensures
        0 <= k < words(normal_form(text)).len() ==> {
            let w = strip_marks(words(normal_form(text))[k]);
            terms_of(text).contains(w) <==> w.len() >= 3 && telling(w) && exists|i: int|
                0 <= i < w.len() && !('0' <= #[trigger] w[i] <= '9')
        },
        terms_of(text).contains(t) ==> t.len() >= 3 && telling(t) && (exists|i: int|
            0 <= i < t.len() && !('0' <= #[trigger] t[i] <= '9')) && exists|j: int|
            0 <= j < words(normal_form(text)).len() && strip_marks(
                #[trigger] words(normal_form(text))[j],
            ) == t,
{
    terms_are_the_searchable_words(text);
    let ws = words(normal_form(text));
    if 0 <= k < ws.len() {
        let w = strip_marks(ws[k]);
        lemma_searchable(w);
        assert(terms_of(text).contains(w) == searchable(w));
    }
    lemma_searchable(t);
}

proof fn lemma_searchable(t: Seq<char>)
    ensures
        searchable(t) <==> t.len() >= 3 && telling(t) && exists|i: int|
            0 <= i < t.len() && !('0' <= #[trigger] t[i] <= '9'),
{
    assert(stop_word(t) == !telling(t));
    if !all_digits(t) {
        let i = choose|i: int| 0 <= i < t.len() && !ascii_digit(#[trigger] t[i]);
        assert(!('0' <= t[i] <= '9'));
    }
    if exists|i: int| 0 <= i < t.len() && !('0' <= #[trigger] t[i] <= '9') {
        let i = choose|i: int| 0 <= i < t.len() && !('0' <= #[trigger] t[i] <= '9');
        assert(!ascii_digit(t[i]));
    }
}

/// A word keeps what stands between the first and the last of its characters that are no hyphen,
/// dot or slash.
pub proof fn marks_are_stripped_from_ends(w: Seq<char>)
    ensures
        ({
            let r = strip_marks(w);
            &&& r.len() <= w.len()
            &&& r.len() > 0 ==> r[0] != '-' && r[0] != '.' && r[0] != '/' && r.last() != '-'
                && r.last() != '.' && r.last() != '/'
            &&& w.len() > 0 && w[0] != '-' && w[0] != '.' && w[0] != '/' && w.last() != '-'
                && w.last() != '.' && w.last() != '/' ==> r == w
        }),
{
    lemma_strip_front(w);
    lemma_strip_back(strip_start(w));
    let inner = strip_start(w);
    if strip_end(inner).len() > 0 {
        assert(strip_end(inner)[0] == inner[0]);
    }
}

proof fn lemma_strip_front(s: Seq<char>)
    ensures
        strip_start(s).len() <= s.len(),
        strip_start(s).len() > 0 ==> !edge_mark(strip_start(s)[0]),
        s.len() > 0 && !edge_mark(s[0]) ==> strip_start(s) == s,
        strip_start(s).len() > 0 ==> strip_start(s).last() == s.last(),
    decreases s.len(),
{
    if s.len() > 0 && edge_mark(s[0]) {
        lemma_strip_front(s.skip(1));
    }
}

proof fn lemma_strip_back(s: Seq<char>)
    ensures
        strip_end(s).len() <= s.len(),
        strip_end(s).len() > 0 ==> !edge_mark(strip_end(s).last()) && strip_end(s)[0] == s[0],
        s.len() > 0 && !edge_mark(s.last()) ==> strip_end(s) == s,
    decreases s.len(),
{
    if s.len() > 0 && edge_mark(s.last()) {
        lemma_strip_back(s.drop_last());
    }
}

// ---------------------------------------------------------------------------
// Order and identity
// ---------------------------------------------------------------------------
/// Texts are ordered as in a dictionary: by the first character in which they differ, and a text
/// before those that go on from it.
pub proof fn texts_are_ordered_as_in_a_dictionary(
    opening: Seq<char>,
    a: char,
    b: char,
    rest: Seq<char>,
    other: Seq<char>,
)
    ensures
        a < b ==> text_less(opening.push(a) + rest, opening.push(b) + other),
        b < a ==> !text_less(opening.push(a) + rest, opening.push(b) + other),
        rest.len() > 0 ==> text_less(opening, opening + rest),
        !text_less(opening + rest, opening),
    decreases opening.len(),
{
    let left = opening.push(a) + rest;
    let right = opening.push(b) + other;
    if opening.len() == 0 {
        assert(left[0] == a && right[0] == b);
        assert(opening + rest =~= rest);
    } else {
        let inner = opening.skip(1);
        texts_are_ordered_as_in_a_dictionary(inner, a, b, rest, other);
        assert(left.skip(1) =~= inner.push(a) + rest);
        assert(right.skip(1) =~= inner.push(b) + other);
        assert((opening + rest).skip(1) =~= inner + rest);
        assert(left[0] == opening[0] && right[0] == opening[0]);
        assert((opening + rest)[0] == opening[0]);
    }
}

/// Terms of one weight stand in the order of the dictionary.
pub proof fn equal_terms_stand_in_dictionary_order(text: Seq<char>, limit: int, i: int, j: int)
    requires
        0 <= limit,
        0 <= i < j < top_terms_of(text, limit).len(),
        term_weight(top_terms_of(text, limit)[i]) == term_weight(top_terms_of(text, limit)[j]),
    ensures
        !text_less(top_terms_of(text, limit)[j], top_terms_of(text, limit)[i]),
{
    let all = terms_of(text);
    let sorted = ranked::<String, ByTermWeight>(all);
    lemma_ranked_in_order::<String, ByTermWeight>(all);
    assert(!ByTermWeight::before(sorted[j], sorted[i]));
}

/// Identifiers are made of what they identify: a memory of its scope, its kind and its key; a
/// memory that is written directly of its words and its time, or of its scope, its kind and its
/// key where it has one; a record that names no trace of its words.
pub proof fn identifiers_are_made_of_what_they_identify(
    scope: ScopeKey,
    kind: MemoryNodeKind,
    key: Seq<char>,
    text: Seq<char>,
    now: i64,
    value: JsonModel,
)
    ensures
        node_id_of(scope, kind, key) == stable_id_of(
            "node"@,
            seq![
                scope.tenant_id,
                scope.project_id,
                scope.environment(),
                kind.name(),
                key,
            ],
        ),
        ({
            let event = direct_event(scope.tenant_id, scope.project_id, kind, text, now);
            let keyed = event.keyed(key);
            &&& event.trace_id == stable_id_of(
                "direct_trace"@,
                seq![text, decimal_int(now as int)],
            )
            &&& event.span_id == stable_id_of("direct_span"@, seq![event.trace_id])
            &&& keyed.trace_id == stable_id_of(
                "direct_trace_idempotent"@,
                seq![scope.tenant_id, scope.project_id, Seq::empty(), kind.name(), trim(key)],
            )
            &&& keyed.span_id == stable_id_of("direct_span"@, seq![keyed.trace_id])
        }),
        !(value.at("trace_id"@) is Text) ==> record_trace(value) == stable_id_of(
            "trace"@,
            seq![json_words(value)],
        ),
        !(value.at("span_id"@) is Text) ==> record_span(value) == stable_id_of(
            "span"@,
            seq![record_trace(value), json_words(value)],
        ),
{
    reveal_strlit("");
    let event = direct_event(scope.tenant_id, scope.project_id, kind, text, now);
    assert(text_or_empty(event.environment_id) =~= Seq::<char>::empty());
}

/// An episode is known by its place in the trace, and any other memory by its kind and what it
/// says.
pub proof fn episodes_are_known_by_their_place(
    kind: MemoryNodeKind,
    text: Seq<char>,
    spans: Seq<SpanModel>,
)
    ensures
        kind == MemoryNodeKind::Episode && spans.len() > 0 ==> base_key(kind, text, spans)
            == "episode:"@ + spans[0].trace_id + ":"@ + spans[0].span_id + ":"@ + decimal(
            spans[0].seq as nat,
        ),
        kind != MemoryNodeKind::Episode ==> base_key(kind, text, spans) == canonical_key_of(
            kind.name(),
            text,
        ),
{
}

} // verus!
