//! The stack builder: produces the full stack block for a pull request.
//!
//! A cherry-pick, and a change directly based on the repository's default
//! branch, form a stack of themselves alone; any other change prepends its
//! own number to the chain recorded on its parent commit. Looking that chain
//! up in the repository is the caller's business: it asks
//! `needs_parent_stack` first and hands the recorded chain in as values.

use vstd::prelude::*;

use crate::codec::{build_pr_stack_message, encode_stack};

verus! {

/// Whether building the stack needs the chain recorded on the parent
/// commit: a cherry-pick, and a change directly based on the default
/// branch, need none — their stack is decided without any ancestor lookup.
pub fn needs_parent_stack(cherry_pick: bool, directly_based_on_master: bool) -> (b: bool)
    ensures
        b == (!cherry_pick && !directly_based_on_master),
{
    !cherry_pick && !directly_based_on_master
}

/// The chain of numbers the stack block for `pr` renders: `pr` alone for a
/// cherry-pick or a change directly based on the default branch, else `pr`
/// prepended to the parent commit's chain.
pub open spec fn stack_numbers(
    pr: u64,
    cherry_pick: bool,
    directly_based_on_master: bool,
    parent_stack: Seq<u64>,
) -> Seq<u64> {
    if cherry_pick || directly_based_on_master {
        seq![pr]
    } else {
        seq![pr] + parent_stack
    }
}

/// Law: for a cherry-pick, or a change directly based on the default
/// branch, the stack is the one-element chain of the pull request itself,
/// whatever parent chain anyone supplies.
pub proof fn lemma_shortcut_stack_is_singleton(
    pr: u64,
    cherry_pick: bool,
    directly_based_on_master: bool,
    p1: Seq<u64>,
    p2: Seq<u64>,
)
    requires
        cherry_pick || directly_based_on_master,
    ensures
        stack_numbers(pr, cherry_pick, directly_based_on_master, p1) == seq![pr],
        stack_numbers(pr, cherry_pick, directly_based_on_master, p1) == stack_numbers(
            pr,
            cherry_pick,
            directly_based_on_master,
            p2,
        ),
{
}

/// Renders the full stack block for pull request `pull_request_number`.
/// `parent_stack` is the chain recorded on the parent commit; it is read
/// only when `needs_parent_stack` says so, and the current pull request
/// always heads the rendered chain.
pub fn get_pr_stack(
    pull_request_number: u64,
    cherry_pick: bool,
    directly_based_on_master: bool,
    parent_stack: &Vec<u64>,
    owner: &str,
    repo: &str,
) -> (r: String)
    ensures
        r@ == encode_stack(
            stack_numbers(pull_request_number, cherry_pick, directly_based_on_master, parent_stack@),
            owner@,
            repo@,
        ),
{
    let mut numbers: Vec<u64> = Vec::new();
    numbers.push(pull_request_number);
    proof {
        assert(numbers@ =~= seq![pull_request_number]);
    }
    if needs_parent_stack(cherry_pick, directly_based_on_master) {
        proof {
            assert(seq![pull_request_number] + parent_stack@.take(0) =~= numbers@);
        }
        let mut k: usize = 0;
        while k < parent_stack.len()
            invariant
                0 <= k <= parent_stack@.len(),
                numbers@ == seq![pull_request_number] + parent_stack@.take(k as int),
            decreases parent_stack@.len() - k,
        {
            numbers.push(parent_stack[k]);
            proof {
                assert(numbers@ =~= seq![pull_request_number] + parent_stack@.take(k as int + 1));
            }
            k = k + 1;
        }
        proof {
            assert(parent_stack@.take(parent_stack@.len() as int) =~= parent_stack@);
        }
    }
    build_pr_stack_message(&numbers, owner, repo)
}

} // verus!
