//! What holds of a whole parse.
use vstd::prelude::*;
use vstd::utf8::encode_utf8;

use crate::error::{ErrorView, Expected};
use crate::grammar::{conform, program, Flow, Snapshot};
use crate::interner::{names_stay_distinct, symbol_holds_name};
use crate::lexer::{covers, is_lexed, tokens, tokens_follow_the_text};
use crate::red_node::Green;
use crate::source_map::{place_of, Ctxt, Site, SourceMap};
use crate::syntax::SyntaxKind;
use crate::token::{Token, TokenKind};

use super::accounts::program_is_lawful;
use super::alike::{alike, kinds, same_tokens};
use super::complete::{programs_are_passed_over, programs_are_read};
use super::context::programs_end_alike;
use super::exact::only_programs_are_read;
use super::language::{is_program, read, resolve, resolve_of, text, text_of, Source};
use super::lawful::ran_out;
use super::ledger::{
    all_sound, follows, leaves, ledger, lemma_follows_recover, lemma_follows_skip_to,
    lemma_settle_all, settle_all, tidy, Fate, Ledger,
};

verus! {

/// A parse is free of errors exactly if its input is the text of a program.
pub proof fn error_free_exactly_for_programs<'de>(s: Snapshot<'de>)
    ensures
        program(s).1.errs == s.errs <==> exists|forest: Seq<Source<'de>>| #[trigger]
            is_program(forest) && s.rest == text(forest),
{
    if program(s).1.errs == s.errs {
        only_programs_are_read(s);
    }
    if exists|forest: Seq<Source<'de>>| #[trigger] is_program(forest) && s.rest == text(forest) {
        let forest = choose|forest: Seq<Source<'de>>| #[trigger]
            is_program(forest) && s.rest == text(forest);
        programs_are_read(s, forest);
    }
}

/// Trees that agree but for their tokens have texts of the same length, and are the same if
/// the texts are.
proof fn lemma_same_tree<'de>(
    a: Source<'de>,
    b: Source<'de>,
    a_names: Seq<Seq<char>>,
    b_names: Seq<Seq<char>>,
)
    requires
        resolve_of(a, a_names).0 == resolve_of(b, b_names).0,
    ensures
        text_of(a).len() == text_of(b).len(),
        text_of(a) == text_of(b) ==> a == b,
    decreases a,
{
    match (a, b) {
        (Source::Node(_, c), Source::Node(_, d)) => {
            lemma_same_forest(c, d, a_names, b_names);
        },
        (Source::Token(t), Source::Token(u)) => {},
        (Source::Name(t), Source::Name(u)) => {
            assert(text_of(a)[0] == t && text_of(b)[0] == u);
        },
        _ => {},
    }
}

proof fn lemma_same_forest<'de>(
    a: Seq<Source<'de>>,
    b: Seq<Source<'de>>,
    a_names: Seq<Seq<char>>,
    b_names: Seq<Seq<char>>,
)
    requires
        resolve(a, a_names).0 == resolve(b, b_names).0,
    ensures
        text(a).len() == text(b).len(),
        text(a) == text(b) ==> a == b,
    decreases a,
{
    lemma_resolve_len(a, a_names);
    lemma_resolve_len(b, b_names);
    if a.len() > 0 {
        let (a_init, a_between) = resolve(a.drop_last(), a_names);
        let (b_init, b_between) = resolve(b.drop_last(), b_names);
        let a_trees = resolve(a, a_names).0;
        let b_trees = resolve(b, b_names).0;
        assert(a_trees.drop_last() =~= a_init);
        assert(b_trees.drop_last() =~= b_init);
        assert(a_trees.last() == resolve_of(a.last(), a_between).0);
        assert(b_trees.last() == resolve_of(b.last(), b_between).0);
        lemma_same_forest(a.drop_last(), b.drop_last(), a_names, b_names);
        lemma_same_tree(a.last(), b.last(), a_between, b_between);
        if text(a) == text(b) {
            let n = text(a.drop_last()).len() as int;
            assert(text(a).take(n) =~= text(a.drop_last()));
            assert(text(b).take(n) =~= text(b.drop_last()));
            assert(text(a).skip(n) =~= text_of(a.last()));
            assert(text(b).skip(n) =~= text_of(b.last()));
            assert(a =~= a.drop_last().push(a.last()));
            assert(b =~= b.drop_last().push(b.last()));
        }
    } else {
        assert(a =~= b);
    }
}

proof fn lemma_resolve_len<'de>(forest: Seq<Source<'de>>, names: Seq<Seq<char>>)
    ensures
        resolve(forest, names).0.len() == forest.len(),
    decreases forest.len(),
{
    if forest.len() > 0 {
        lemma_resolve_len(forest.drop_last(), names);
    }
}

/// No two programs have the same text.
pub proof fn programs_are_unambiguous<'de>(
    a: Seq<Source<'de>>,
    b: Seq<Source<'de>>,
)
    requires
        is_program(a),
        is_program(b),
        text(a) == text(b),
    ensures
        a == b,
{
    let s = Snapshot {
        rest: text(a),
        out: Seq::empty(),
        errs: Seq::empty(),
        names: Seq::empty(),
        end: Ctxt { start: 0, width: 0, site: None },
    };
    programs_are_read(s, a);
    programs_are_read(s, b);
    let none = Seq::<Green<'de>>::empty();
    assert(none + resolve(a, s.names).0 =~= resolve(a, s.names).0);
    assert(none + resolve(b, s.names).0 =~= resolve(b, s.names).0);
    lemma_same_forest(a, b, s.names, s.names);
}

/// The part of a parse in which tokens are used: all of it, but for the report of the end.
proof fn lemma_last<'de>(s: Snapshot<'de>) -> (last: Snapshot<'de>)
    ensures
        follows(s, last),
        ({
            let (flow, after) = program(s);
            if flow is Eof {
                last.at_end() && exists|expected: Expected|
                    expected != Expected::Nothing && after == #[trigger] last.miss(expected)
            } else {
                last == after
            }
        }),
{
    program_is_lawful(s);
    let (flow, after) = program(s);
    if flow is Eof {
        reveal(ran_out);
        let (last, expected) = choose|last: Snapshot<'de>, expected: Expected|
            follows(s, last) && last.at_end() && expected != Expected::Nothing && after
                == #[trigger] last.miss(expected);
        last
    } else {
        after
    }
}

/// What has been added stays: trees, errors and names are added behind those that are there,
/// and tokens are used from the front.
pub proof fn nothing_is_taken_back<'de>(s: Snapshot<'de>)
    ensures
        ({
            let after = program(s).1;
            &&& s.out.is_prefix_of(after.out)
            &&& s.errs.is_prefix_of(after.errs)
            &&& s.names.is_prefix_of(after.names)
            &&& after.rest.len() <= s.rest.len()
            &&& after.rest == s.rest.skip(s.rest.len() - after.rest.len())
            &&& after.end == s.end
        }),
{
    let last = lemma_last(s);
    reveal(follows);
    let fates = choose|fates: Seq<Fate>| #[trigger]
        settle_all(ledger(s), fates) == Some(ledger(last));
    lemma_settle_all(ledger(s), fates);
}

/// No token gets lost: there is a leaf or an error for each token, and besides these only the
/// error for the end of the input.
pub proof fn every_token_is_accounted_for<'de>(s: Snapshot<'de>)
    ensures
        program(s).1.at_end(),
        ({
            let (flow, after) = program(s);
            let added = leaves(after.out).len() - leaves(s.out).len();
            let reported = after.errs.len() - s.errs.len();
            added + reported == if flow is Eof {
                s.rest.len() + 1
            } else {
                s.rest.len()
            }
        }),
{
    program_is_lawful(s);
    let last = lemma_last(s);
    reveal(follows);
    let fates = choose|fates: Seq<Fate>| #[trigger]
        settle_all(ledger(s), fates) == Some(ledger(last));
    lemma_settle_all(ledger(s), fates);
}

/// The leaf holds the token: as it is, or, for a name, by its symbol and its width.
pub open spec fn spells<'de>(leaf: Green<'de>, tok: Token<'de>, names: Seq<Seq<char>>) -> bool {
    match leaf {
        Green::Token(kept) => kept == tok,
        Green::Ident(ident) => {
            &&& tok.kind == TokenKind::Ident
            &&& ident.sym < names.len()
            &&& names[ident.sym as int] == tok.lexeme@
            &&& ident.width == tok.lexeme.len()
        },
        Green::Node(_, _) => false,
    }
}

proof fn lemma_spelled<'de>(l: Ledger<'de>, fates: Seq<Fate>)
    requires
        settle_all(l, fates) is Some,
        settle_all(l, fates)->0.errs.len() == l.errs.len(),
        l.names.len() + l.rest.len() <= usize::MAX,
    ensures
        ({
            let m = settle_all(l, fates)->0;
            let n = l.leaves.len() as int;
            &&& m.leaves.len() == n + fates.len()
            &&& m.names.len() <= l.names.len() + fates.len()
            &&& forall|i: int|
                n <= i < m.leaves.len() ==> spells(#[trigger] m.leaves[i], l.rest[i - n], m.names)
        }),
    decreases fates.len(),
{
    lemma_settle_all(l, fates);
    if fates.len() > 0 {
        let init = fates.drop_last();
        let k = settle_all(l, init)->0;
        let m = settle_all(l, fates)->0;
        lemma_settle_all(l, init);
        lemma_spelled(l, init);
        let n = l.leaves.len() as int;
        let tok = k.rest[0];
        assert(tok == l.rest[init.len() as int]);
        symbol_holds_name(k.names, tok.lexeme@);
        assert(k.names.is_prefix_of(m.names));
        assert forall|i: int| n <= i < m.leaves.len() implies spells(
            #[trigger] m.leaves[i],
            l.rest[i - n],
            m.names,
        ) by {
            if i < k.leaves.len() {
                assert(m.leaves[i] == k.leaves[i]);
                assert(spells(k.leaves[i], l.rest[i - n], k.names));
            }
        }
    }
}

/// The tree of a program is lossless: its leaves are the tokens, each in its place.
pub proof fn leaves_spell_the_text<'de>(s: Snapshot<'de>)
    requires
        program(s).1.errs == s.errs,
        s.names.len() + s.rest.len() <= usize::MAX,
    ensures
        ({
            let after = program(s).1;
            let added = leaves(after.out).skip(leaves(s.out).len() as int);
            &&& added.len() == s.rest.len()
            &&& forall|i: int|
                0 <= i < added.len() ==> spells(#[trigger] added[i], s.rest[i], after.names)
        }),
{
    let last = lemma_last(s);
    program_is_lawful(s);
    reveal(follows);
    let fates = choose|fates: Seq<Fate>| #[trigger]
        settle_all(ledger(s), fates) == Some(ledger(last));
    lemma_settle_all(ledger(s), fates);
    lemma_spelled(ledger(s), fates);
}

/// An error node comes with an error.
pub proof fn error_nodes_come_with_errors<'de>(s: Snapshot<'de>)
    requires
        program(s).1.errs == s.errs,
    ensures
        all_sound(program(s).1.out.skip(s.out.len() as int)),
{
    program_is_lawful(s);
    reveal(tidy);
}

/// A production that has failed is given up at a token of the set or at the end of the input.
/// What is skipped for that is kept under an error node, and no error is added.
pub proof fn recovery_reaches_a_boundary<'de>(
    result: (Flow, Snapshot<'de>),
    set: Seq<TokenKind>,
)
    requires
        result.0 is Failed,
    ensures
        ({
            let (flow, after) = conform(result, set);
            &&& flow is Done
            &&& after.at_end() || after.next_in(set)
            &&& after.errs == result.1.errs
            &&& after.out.len() == result.1.out.len() + 1
            &&& result.1.out.is_prefix_of(after.out)
            &&& after.out.last() matches Green::Node(SyntaxKind::Error, _)
        }),
{
    lemma_follows_recover(result.1, set);
    reveal(follows);
    lemma_follows_skip_to(result.1, set);
}

/// The error is about the token: it names the token's text and the token's place, and was raised
/// when the token was taken.
pub open spec fn is_about<'de>(err: ErrorView, tok: Token<'de>) -> bool {
    exists|expected: Expected|
        expected != Expected::Nothing && err == (ErrorView {
            kind: #[trigger] expected.kind_view(tok.lexeme@),
            ctxt: Some(place_of(tok).raised_in(Site::MakeErr)),
        })
}

/// The errors are about tokens of `toks`, in the order of the tokens: the error at index `i`
/// about the token at `at[i]`.
pub open spec fn in_order<'de>(errs: Seq<ErrorView>, toks: Seq<Token<'de>>, at: Seq<int>) -> bool {
    &&& at.len() == errs.len()
    &&& forall|i: int| 0 <= i < at.len() ==> 0 <= #[trigger] at[i] < toks.len()
    &&& forall|i: int, j: int| 0 <= i < j < at.len() ==> #[trigger] at[i] < #[trigger] at[j]
    &&& forall|i: int| 0 <= i < at.len() ==> is_about(errs[i], toks[#[trigger] at[i]])
}

proof fn lemma_in_order<'de>(l: Ledger<'de>, fates: Seq<Fate>) -> (at: Seq<int>)
    requires
        settle_all(l, fates) is Some,
    ensures
        ({
            let m = settle_all(l, fates)->0;
            in_order(m.errs.skip(l.errs.len() as int), l.rest.take(fates.len() as int), at)
        }),
    decreases fates.len(),
{
    lemma_settle_all(l, fates);
    let m = settle_all(l, fates)->0;
    let n = l.errs.len() as int;
    let toks = l.rest.take(fates.len() as int);
    if fates.len() == 0 {
        assert(m.errs.skip(n) =~= Seq::empty());
        Seq::empty()
    } else {
        let init = fates.drop_last();
        let k = settle_all(l, init)->0;
        lemma_settle_all(l, init);
        let before = lemma_in_order(l, init);
        let last = init.len() as int;
        let tok = k.rest[0];
        assert(toks[last] == tok);
        assert(forall|i: int| 0 <= i < last ==> toks[i] == l.rest.take(last)[i]);
        let errs = m.errs.skip(n);
        if let Fate::Rejected(expected) = fates.last() {
            let at = before.push(last);
            assert(errs =~= k.errs.skip(n).push(m.errs.last()));
            assert(m.errs.last().kind == expected.kind_view(tok.lexeme@));
            assert(is_about(m.errs.last(), tok));
            assert forall|i: int| 0 <= i < at.len() implies is_about(
                errs[i],
                toks[#[trigger] at[i]],
            ) by {
                if i < before.len() {
                    assert(at[i] == before[i]);
                    assert(is_about(k.errs.skip(n)[i], l.rest.take(last)[before[i]]));
                }
            }
            at
        } else {
            assert(errs == k.errs.skip(n));
            assert forall|i: int| 0 <= i < before.len() implies is_about(
                errs[i],
                toks[#[trigger] before[i]],
            ) by {
                assert(is_about(k.errs.skip(n)[i], l.rest.take(last)[before[i]]));
            }
            before
        }
    }
}

/// Errors come in the order of the text. Each is about another token; only the last one can be
/// about the end of the input instead, and is so exactly if the input ended too early.
pub proof fn errors_follow_the_text<'de>(s: Snapshot<'de>)
    ensures
        ({
            let (flow, after) = program(s);
            let added = after.errs.skip(s.errs.len() as int);
            if flow is Eof {
                &&& added.len() > 0
                &&& added.last().ctxt == Some(s.end.raised_in(Site::Peek))
                &&& exists|at: Seq<int>| #[trigger] in_order(added.drop_last(), s.rest, at)
            } else {
                exists|at: Seq<int>| #[trigger] in_order(added, s.rest, at)
            }
        }),
{
    let last = lemma_last(s);
    reveal(follows);
    let fates = choose|fates: Seq<Fate>| #[trigger]
        settle_all(ledger(s), fates) == Some(ledger(last));
    lemma_settle_all(ledger(s), fates);
    let at = lemma_in_order(ledger(s), fates);
    let n = s.errs.len() as int;
    let toks = s.rest.take(fates.len() as int);
    assert(forall|i: int| 0 <= i < toks.len() ==> toks[i] == s.rest[i]);
    let errs = last.errs.skip(n);
    assert(in_order(errs, s.rest, at));
    let (flow, after) = program(s);
    if flow is Eof {
        assert(after.errs.skip(n).drop_last() =~= errs);
        assert(after.errs.skip(n).last() == after.errs.last());
    }
}

/// No error is of the kind that says that no input leads to it.
pub proof fn unreachable_is_never_reported<'de>(s: Snapshot<'de>)
    ensures
        ({
            let errs = program(s).1.errs;
            forall|i: int|
                s.errs.len() <= i < errs.len() ==> !((#[trigger] errs[i]).kind is Unreachable)
        }),
{
    errors_follow_the_text(s);
    lemma_last(s);
    let n = s.errs.len() as int;
    let (flow, after) = program(s);
    let added = after.errs.skip(n);
    let about = if flow is Eof {
        added.drop_last()
    } else {
        added
    };
    let at = choose|at: Seq<int>| #[trigger] in_order(about, s.rest, at);
    assert forall|i: int| n <= i < after.errs.len() implies !((
    #[trigger] after.errs[i]).kind is Unreachable) by {
        if i - n < about.len() {
            assert(after.errs[i] == about[i - n]);
            assert(is_about(about[i - n], s.rest[at[i - n]]));
        } else {
            assert(after.errs[i] == after.errs.last());
        }
    }
}

/// Statements without an error leave the errors behind them as they are: what follows gives
/// errors of the kinds that it gives alone. (An `else` could belong to an `if` at the end of
/// the statements.)
pub proof fn error_free_prefix_keeps_later_errors<'de>(
    first: Snapshot<'de>,
    second: Snapshot<'de>,
    whole: Snapshot<'de>,
    rest: Seq<Token<'de>>,
)
    requires
        program(first).1.errs == first.errs,
        whole.rest == first.rest + rest,
        same_tokens(rest, second.rest),
        !second.next_is(TokenKind::Else),
        kinds(whole.errs) == kinds(second.errs),
    ensures
        program(whole).0 == program(second).0,
        kinds(program(whole).1.errs) == kinds(program(second).1.errs),
{
    only_programs_are_read(first);
    let forest = choose|forest: Seq<Source<'de>>| #[trigger]
        is_program(forest) && first.rest == text(forest);
    programs_are_passed_over(whole, forest, rest);
    reveal(alike);
    programs_end_alike(read(whole, forest, rest), second);
}

/// The errors of a parse of a whole source point into it, each behind the one before.
pub proof fn errors_point_into_the_source<'de>(s: Snapshot<'de>, source_map: &SourceMap)
    requires
        is_lexed(s.rest, encode_utf8(source_map@)),
        s.errs.len() == 0,
        s.end == source_map.end_place(),
        encode_utf8(source_map@).len() <= usize::MAX,
    ensures
        ({
            let errs = program(s).1.errs;
            let len = encode_utf8(source_map@).len();
            &&& forall|i: int|
                0 <= i < errs.len() ==> ((#[trigger] errs[i]).ctxt matches Some(place) && place.start
                    + place.width <= len)
            &&& forall|i: int, j: int|
                0 <= i < j < errs.len() ==> (#[trigger] errs[i]).ctxt->0.start < (
                #[trigger] errs[j]).ctxt->0.start
        }),
{
    let bytes = encode_utf8(source_map@);
    let spans = tokens(bytes);
    let (flow, after) = program(s);
    let errs = after.errs;
    errors_follow_the_text(s);
    tokens_follow_the_text(bytes);
    assert(errs.skip(0) =~= errs);
    let about = if flow is Eof {
        errs.drop_last()
    } else {
        errs
    };
    let at = choose|at: Seq<int>| #[trigger] in_order(about, s.rest, at);
    assert forall|i: int| 0 <= i < about.len() implies {
        &&& (#[trigger] about[i]).ctxt is Some
        &&& about[i].ctxt->0.start == spans[at[i]].start
        &&& about[i].ctxt->0.width == spans[at[i]].end - spans[at[i]].start
        &&& spans[at[i]].end <= bytes.len()
    } by {
        let tok = s.rest[at[i]];
        assert(is_about(about[i], tok));
        assert(covers(tok, spans[at[i]], bytes));
    }
    assert forall|i: int, j: int| 0 <= i < j < errs.len() implies (
    #[trigger] errs[i]).ctxt->0.start < (#[trigger] errs[j]).ctxt->0.start by {
        assert(errs[i] == about[i]);
        assert(spans[at[i]].start < spans[at[i]].end);
        if j < about.len() {
            assert(errs[j] == about[j]);
            assert(at[i] < at[j]);
            assert(spans[at[i]].end <= spans[at[j]].start);
        } else {
            assert(errs[j] == errs.last());
        }
    }
    assert forall|i: int| 0 <= i < errs.len() implies ((#[trigger] errs[i]).ctxt matches Some(place)
        && place.start + place.width <= bytes.len()) by {
        if i < about.len() {
            assert(errs[i] == about[i]);
        } else {
            assert(errs[i] == errs.last());
        }
    }
}

/// An early end of a source is reported just behind its last byte, and has no width.
pub proof fn early_ends_are_reported_behind_the_source<'de>(
    s: Snapshot<'de>,
    source_map: &SourceMap,
)
    requires
        s.end == source_map.end_place(),
        program(s).0 is Eof,
        encode_utf8(source_map@).len() <= usize::MAX,
    ensures
        ({
            let errs = program(s).1.errs;
            &&& errs.len() > s.errs.len()
            &&& errs.last().ctxt matches Some(place) && {
                &&& place.start == encode_utf8(source_map@).len()
                &&& place.width == 0
                &&& place.site == Some(Site::Peek)
            }
        }),
{
    errors_follow_the_text(s);
    nothing_is_taken_back(s);
    let errs = program(s).1.errs;
    let added = errs.skip(s.errs.len() as int);
    assert(added.last() == errs.last());
}

proof fn lemma_distinct<'de>(l: Ledger<'de>, fates: Seq<Fate>)
    requires
        settle_all(l, fates) is Some,
        l.names.no_duplicates(),
    ensures
        settle_all(l, fates)->0.names.no_duplicates(),
    decreases fates.len(),
{
    if fates.len() > 0 {
        lemma_distinct(l, fates.drop_last());
        let k = settle_all(l, fates.drop_last())->0;
        names_stay_distinct(k.names, k.rest[0].lexeme@);
    }
}

/// No name is kept twice.
pub proof fn names_stay_distinct_in_a_parse<'de>(s: Snapshot<'de>)
    requires
        s.names.no_duplicates(),
    ensures
        program(s).1.names.no_duplicates(),
{
    let last = lemma_last(s);
    reveal(follows);
    let fates = choose|fates: Seq<Fate>| #[trigger]
        settle_all(ledger(s), fates) == Some(ledger(last));
    lemma_distinct(ledger(s), fates);
}

} // verus!
