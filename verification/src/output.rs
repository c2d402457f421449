//! What each output format holds.
//!
//! | Format | Holds |
//! |--------|-------|
//! | JSON (`-j`) | every result, valid or not |
//! | GoPhish CSV (`-f gophish`) | one record per valid address |
//! | list (`-f list`, the default) | one line per valid address |

use vstd::prelude::*;
use crate::cli::Format;
use crate::email::is_email_syntax;
use crate::order::{lex_lt, string_texts, strictly_sorted};
use crate::validation::ValidationResult;

verus! {

/// The output chosen by the options.
#[derive(Clone, Copy, PartialEq, Eq, Debug, Structural)]
pub enum OutputKind {
    Json,
    Gophish,
    List,
}

/// JSON when asked for, otherwise the chosen format.
pub fn output_kind(json: bool, format: Format) -> (k: OutputKind)
    ensures
        json ==> k == OutputKind::Json,
        !json && format == Format::Gophish ==> k == OutputKind::Gophish,
        !json && format == Format::List ==> k == OutputKind::List,
{
    if json {
        OutputKind::Json
    } else {
        match format {
            Format::Gophish => OutputKind::Gophish,
            Format::List => OutputKind::List,
        }
    }
}

/// The addresses of the valid results, in order.
pub open spec fn valid_emails(rs: Seq<ValidationResult>) -> Seq<Seq<char>>
    decreases rs.len(),
{
    if rs.len() == 0 {
        Seq::empty()
    } else if rs.last().valid {
        valid_emails(rs.drop_last()).push(rs.last().email@)
    } else {
        valid_emails(rs.drop_last())
    }
}

/// Number of valid results.
pub open spec fn count_valid(rs: Seq<ValidationResult>) -> nat
    decreases rs.len(),
{
    if rs.len() == 0 {
        0
    } else {
        count_valid(rs.drop_last()) + if rs.last().valid {
            1nat
        } else {
            0nat
        }
    }
}

/// Number of results flagged catch-all.
pub open spec fn count_catch_all(rs: Seq<ValidationResult>) -> nat
    decreases rs.len(),
{
    if rs.len() == 0 {
        0
    } else {
        count_catch_all(rs.drop_last()) + if rs.last().catch_all {
            1nat
        } else {
            0nat
        }
    }
}

/// The addresses written by the list and GoPhish formats: those of the
/// valid results, in order.
pub fn listed_emails(results: &Vec<ValidationResult>) -> (out: Vec<String>)
    ensures
        string_texts(out@) == valid_emails(results@),
{
    let mut out: Vec<String> = Vec::new();
    let mut k: usize = 0;
    while k < results.len()
        invariant
            k <= results.len(),
            string_texts(out@) == valid_emails(results@.take(k as int)),
        decreases results.len() - k,
    {
        assert(results@.take(k + 1).drop_last() =~= results@.take(k as int));
        let ghost before = string_texts(out@);
        if results[k].valid {
            out.push(results[k].email.clone());
            assert(string_texts(out@) =~= before.push(results@[k as int].email@));
        }
        k += 1;
    }
    assert(results@.take(k as int) =~= results@);
    out
}

pub proof fn lemma_counts_bounded(rs: Seq<ValidationResult>)
    ensures
        count_valid(rs) <= rs.len(),
        count_catch_all(rs) <= rs.len(),
    decreases rs.len(),
{
    if rs.len() > 0 {
        lemma_counts_bounded(rs.drop_last());
    }
}

/// When every result flagged catch-all is valid, as every verdict of the
/// validation steps is, there are no more catch-all results than valid ones.
pub proof fn lemma_catch_all_within_valid(rs: Seq<ValidationResult>)
    requires
        forall|k: int| 0 <= k < rs.len() ==> (#[trigger] rs[k]).catch_all ==> rs[k].valid,
    ensures
        count_catch_all(rs) <= count_valid(rs),
    decreases rs.len(),
{
    if rs.len() > 0 {
        assert forall|k: int|
            0 <= k < rs.drop_last().len() && (#[trigger] rs.drop_last()[k]).catch_all implies rs.drop_last()[k].valid by {
            assert(rs.drop_last()[k] == rs[k]);
        }
        lemma_catch_all_within_valid(rs.drop_last());
        assert(rs.last() == rs[rs.len() - 1]);
    }
}

/// The addresses of the results, in order.
pub open spec fn result_emails(rs: Seq<ValidationResult>) -> Seq<Seq<char>> {
    rs.map_values(|r: ValidationResult| r.email@)
}

/// An address is listed exactly when some result for it is valid.
pub proof fn lemma_listed_are_valid(rs: Seq<ValidationResult>, x: Seq<char>)
    ensures
        valid_emails(rs).contains(x) <==> exists|i: int|
            0 <= i < rs.len() && (#[trigger] rs[i]).valid && rs[i].email@ == x,
    decreases rs.len(),
{
    if rs.len() > 0 {
        let init = rs.drop_last();
        lemma_listed_are_valid(init, x);
        if exists|i: int| 0 <= i < rs.len() && (#[trigger] rs[i]).valid && rs[i].email@ == x {
            let i = choose|i: int| 0 <= i < rs.len() && (#[trigger] rs[i]).valid && rs[i].email@ == x;
            if i < rs.len() - 1 {
                assert(init[i] == rs[i]);
                let k = choose|k: int| 0 <= k < valid_emails(init).len() && valid_emails(init)[k] == x;
                if rs.last().valid {
                    assert(valid_emails(rs)[k] == x);
                }
            } else {
                assert(valid_emails(rs).last() == x);
            }
        }
        if valid_emails(rs).contains(x) {
            let k = choose|k: int| 0 <= k < valid_emails(rs).len() && valid_emails(rs)[k] == x;
            if rs.last().valid && k == valid_emails(rs).len() - 1 {
                assert(rs[rs.len() - 1].valid && rs[rs.len() - 1].email@ == x);
            } else {
                assert(valid_emails(init)[k] == x);
                let i = choose|i: int| 0 <= i < init.len() && (#[trigger] init[i]).valid && init[i].email@ == x;
                assert(rs[i] == init[i]);
            }
        }
    }
}

/// Listing keeps the order of the results.
pub proof fn lemma_listed_in_order(rs: Seq<ValidationResult>)
    requires
        strictly_sorted(result_emails(rs)),
    ensures
        strictly_sorted(valid_emails(rs)),
    decreases rs.len(),
{
    if rs.len() > 0 {
        let init = rs.drop_last();
        assert(strictly_sorted(result_emails(init))) by {
            assert forall|i: int, j: int| 0 <= i < j < result_emails(init).len() implies lex_lt(
                #[trigger] result_emails(init)[i],
                #[trigger] result_emails(init)[j],
            ) by {
                assert(result_emails(init)[i] == result_emails(rs)[i]);
                assert(result_emails(init)[j] == result_emails(rs)[j]);
            }
        }
        lemma_listed_in_order(init);
        if rs.last().valid {
            let v = valid_emails(init);
            let last = rs.last().email@;
            assert forall|k: int| 0 <= k < v.len() implies lex_lt(#[trigger] v[k], last) by {
                assert(v.contains(v[k]));
                lemma_listed_are_valid(init, v[k]);
                let i = choose|i: int| 0 <= i < init.len() && (#[trigger] init[i]).valid && init[i].email@ == v[k];
                assert(result_emails(rs)[i] == v[k]);
                assert(result_emails(rs)[rs.len() - 1] == last);
            }
            assert forall|i: int, j: int| 0 <= i < j < v.push(last).len() implies lex_lt(
                #[trigger] v.push(last)[i],
                #[trigger] v.push(last)[j],
            ) by {
                if j == v.len() {
                    assert(v.push(last)[i] == v[i]);
                } else {
                    assert(v.push(last)[i] == v[i]);
                    assert(v.push(last)[j] == v[j]);
                }
            }
        }
    }
}

/// Under the syntax check, as the regex method gives its verdicts, the
/// list output of sorted distinct addresses is sorted, holds each address
/// once, and holds exactly the input addresses that have the address
/// syntax: every line it writes has that syntax.
pub proof fn lemma_syntax_list_output(rs: Seq<ValidationResult>)
    requires
        strictly_sorted(result_emails(rs)),
        forall|k: int| 0 <= k < rs.len() ==> (#[trigger] rs[k]).valid == is_email_syntax(rs[k].email@),
    ensures
        strictly_sorted(valid_emails(rs)),
        forall|x: Seq<char>|
            #[trigger] valid_emails(rs).contains(x) <==> result_emails(rs).contains(x) && is_email_syntax(x),
{
    lemma_listed_in_order(rs);
    assert forall|x: Seq<char>|
        #[trigger] valid_emails(rs).contains(x) <==> result_emails(rs).contains(x) && is_email_syntax(x) by {
        lemma_listed_are_valid(rs, x);
        if valid_emails(rs).contains(x) {
            let i = choose|i: int| 0 <= i < rs.len() && (#[trigger] rs[i]).valid && rs[i].email@ == x;
            assert(result_emails(rs)[i] == x);
        }
        if result_emails(rs).contains(x) && is_email_syntax(x) {
            let i = choose|i: int| 0 <= i < result_emails(rs).len() && result_emails(rs)[i] == x;
            assert(rs[i].valid);
        }
    }
}

/// The counts and the listed addresses of two runs of results taken
/// together are those of each run, added up and joined; a single result
/// counts once where it is valid or flagged, and is listed when valid.
/// So every valid result is counted and listed, and every flagged result
/// is counted.
pub proof fn lemma_counts_add_up(a: Seq<ValidationResult>, b: Seq<ValidationResult>)
    ensures
        count_valid(a + b) == count_valid(a) + count_valid(b),
        count_catch_all(a + b) == count_catch_all(a) + count_catch_all(b),
        valid_emails(a + b) == valid_emails(a) + valid_emails(b),
    decreases b.len(),
{
    if b.len() == 0 {
        assert(a + b =~= a);
        assert(valid_emails(a) + valid_emails(b) =~= valid_emails(a));
    } else {
        lemma_counts_add_up(a, b.drop_last());
        assert((a + b).drop_last() =~= a + b.drop_last());
        assert((a + b).last() == b.last());
        if b.last().valid {
            assert(valid_emails(a + b) =~= valid_emails(a) + valid_emails(b));
        } else {
            assert(valid_emails(a + b) =~= valid_emails(a) + valid_emails(b));
        }
    }
}

/// A single result: counted as valid exactly when valid, as catch-all
/// exactly when flagged, and listed exactly when valid.
pub proof fn lemma_counts_of_one(r: ValidationResult)
    ensures
        count_valid(seq![r]) == (if r.valid { 1nat } else { 0nat }),
        count_catch_all(seq![r]) == (if r.catch_all { 1nat } else { 0nat }),
        valid_emails(seq![r]) == (if r.valid { seq![r.email@] } else { Seq::<Seq<char>>::empty() }),
{
    let e = Seq::<ValidationResult>::empty();
    assert(seq![r].drop_last() =~= e);
    assert(seq![r].last() == r);
    assert(count_valid(e) == 0);
    assert(count_catch_all(e) == 0);
    assert(valid_emails(e) =~= Seq::<Seq<char>>::empty());
    assert(valid_emails(seq![r]) =~= (if r.valid { seq![r.email@] } else { Seq::<Seq<char>>::empty() }));
}

/// When every result is flagged catch-all, the catch-all count is the
/// number of results; when every result is valid, so is the valid count.
pub proof fn lemma_all_flagged_counted(rs: Seq<ValidationResult>)
    ensures
        (forall|k: int| 0 <= k < rs.len() ==> (#[trigger] rs[k]).catch_all) ==> count_catch_all(rs)
            == rs.len(),
        (forall|k: int| 0 <= k < rs.len() ==> (#[trigger] rs[k]).valid) ==> count_valid(rs)
            == rs.len(),
    decreases rs.len(),
{
    if rs.len() > 0 {
        let init = rs.drop_last();
        lemma_all_flagged_counted(init);
        assert(rs =~= init + seq![rs.last()]);
        lemma_counts_add_up(init, seq![rs.last()]);
        lemma_counts_of_one(rs.last());
        if forall|k: int| 0 <= k < rs.len() ==> (#[trigger] rs[k]).catch_all {
            assert forall|k: int| 0 <= k < init.len() implies (#[trigger] init[k]).catch_all by {
                assert(init[k] == rs[k]);
            }
            assert(rs[rs.len() - 1].catch_all);
        }
        if forall|k: int| 0 <= k < rs.len() ==> (#[trigger] rs[k]).valid {
            assert forall|k: int| 0 <= k < init.len() implies (#[trigger] init[k]).valid by {
                assert(init[k] == rs[k]);
            }
            assert(rs[rs.len() - 1].valid);
        }
    }
}

/// Number of valid results.
pub fn valid_count(results: &Vec<ValidationResult>) -> (n: usize)
    ensures
        n == count_valid(results@),
{
    let mut n: usize = 0;
    let mut k: usize = 0;
    while k < results.len()
        invariant
            k <= results.len(),
            n == count_valid(results@.take(k as int)),
        decreases results.len() - k,
    {
        assert(results@.take(k + 1).drop_last() =~= results@.take(k as int));
        proof {
            lemma_counts_bounded(results@.take(k + 1));
        }
        if results[k].valid {
            n += 1;
        }
        k += 1;
    }
    assert(results@.take(k as int) =~= results@);
    n
}

/// Number of results flagged catch-all.
pub fn catch_all_count(results: &Vec<ValidationResult>) -> (n: usize)
    ensures
        n == count_catch_all(results@),
{
    let mut n: usize = 0;
    let mut k: usize = 0;
    while k < results.len()
        invariant
            k <= results.len(),
            n == count_catch_all(results@.take(k as int)),
        decreases results.len() - k,
    {
        assert(results@.take(k + 1).drop_last() =~= results@.take(k as int));
        proof {
            lemma_counts_bounded(results@.take(k + 1));
        }
        if results[k].catch_all {
            n += 1;
        }
        k += 1;
    }
    assert(results@.take(k as int) =~= results@);
    n
}

} // verus!
