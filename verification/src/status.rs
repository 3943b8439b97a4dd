//! Outcome rules for a processed transaction and its response messages.
//!
//! The transport hands these functions plain facts about a transaction
//! or a message; the functions decide, deterministically, how a run is
//! classified and which outbound message carries the response.

use vstd::prelude::*;
use crate::slice::{SliceData, s_read_bit, s_read_bits, s_inv, lemma_read_bits_fields, lemma_read_bits_split};
use crate::bits::bits_val;

verus! {

broadcast use {vstd::std_specs::vec::group_vec_axioms, vstd::seq::group_seq_axioms};

/// How a transaction changed the account's storage status.
#[derive(Clone, Copy, PartialEq, Eq, Structural, Debug)]
pub enum AccStatusChange {
    /// The account state is as before.
    Unchanged,
    /// The account was frozen.
    Frozen,
    /// The account was deleted.
    Deleted,
}

/// The plain facts of a finished transaction that the outcome rule
/// reads.
pub struct TransactionStatus {
    /// The transaction was aborted.
    pub aborted: bool,
    /// The storage phase ran, with this status change.
    pub storage_status: Option<AccStatusChange>,
    /// The compute phase was skipped.
    pub compute_skipped: bool,
    /// Whether the compute phase succeeded, if it reported.
    pub compute_success: Option<bool>,
    /// The exit code the compute phase reported, if any.
    pub compute_exit_code: Option<i32>,
    /// The action phase ran with these results.
    pub action: Option<ActionStatus>,
}

/// The plain facts of an action phase.
#[derive(Clone, Copy, PartialEq, Eq, Structural, Debug)]
pub struct ActionStatus {
    /// The action phase succeeded.
    pub success: bool,
    /// Its result code.
    pub result_code: i32,
    /// The actions were valid.
    pub valid: bool,
    /// Funds were missing.
    pub no_funds: bool,
}

/// Why an aborted transaction failed.
#[derive(Clone, Copy, PartialEq, Eq, Structural, Debug)]
pub enum TransactionFailure {
    /// The storage phase changed the account status.
    StoragePhaseFailed(AccStatusChange),
    /// The virtual machine never ran.
    ExecutionSkipped,
    /// The virtual machine failed with this exit code.
    ExecutionFailed(i32),
    /// The action phase failed.
    ActionPhaseFailed(i32, bool, bool),
    /// Aborted with no phase reporting a cause.
    Aborted,
}

/// The outcome rule: an aborted transaction is classified by the first
/// phase that reports a failure; a transaction that was not aborted
/// passes.
pub open spec fn status_outcome(t: TransactionStatus) -> Result<(), TransactionFailure> {
    if !t.aborted {
        Ok(())
    } else if t.storage_status is Some && t.storage_status->0 != AccStatusChange::Unchanged {
        Err(TransactionFailure::StoragePhaseFailed(t.storage_status->0))
    } else if t.compute_skipped {
        Err(TransactionFailure::ExecutionSkipped)
    } else if t.compute_success is None || !t.compute_success->0 {
        Err(
            TransactionFailure::ExecutionFailed(
                if t.compute_exit_code is Some {
                    t.compute_exit_code->0
                } else {
                    (-1) as i32
                },
            ),
        )
    } else if t.action is Some && !t.action->0.success {
        Err(
            TransactionFailure::ActionPhaseFailed(
                t.action->0.result_code,
                t.action->0.valid,
                t.action->0.no_funds,
            ),
        )
    } else {
        Err(TransactionFailure::Aborted)
    }
}

/// Classifies a finished transaction, surfacing the first failing
/// phase of an aborted one.
pub fn check_transaction_status(t: &TransactionStatus) -> (r: Result<(), TransactionFailure>)
    ensures
        r == status_outcome(*t),
{
    if !t.aborted {
        return Ok(());
    }
    match t.storage_status {
        Some(sc) => {
            if sc != AccStatusChange::Unchanged {
                return Err(TransactionFailure::StoragePhaseFailed(sc));
            }
        },
        None => {},
    }
    if t.compute_skipped {
        return Err(TransactionFailure::ExecutionSkipped);
    }
    let failed_compute = match t.compute_success {
        Some(ok) => !ok,
        None => true,
    };
    if failed_compute {
        let code = match t.compute_exit_code {
            Some(c) => c,
            None => -1,
        };
        return Err(TransactionFailure::ExecutionFailed(code));
    }
    match t.action {
        Some(a) => {
            if !a.success {
                return Err(TransactionFailure::ActionPhaseFailed(a.result_code, a.valid, a.no_funds));
            }
        },
        None => {},
    }
    Err(TransactionFailure::Aborted)
}

/// The plain facts of one outbound message the selection rule reads.
#[derive(Clone, Copy, PartialEq, Eq, Structural, Debug)]
pub struct OutMessage {
    /// The message leaves the chain as an external outbound message.
    pub external_outbound: bool,
    /// It carries a body.
    pub has_body: bool,
    /// Its body answers the function under consideration.
    pub answers_function: bool,
}

/// Whether a message is the response the caller waits for.
pub open spec fn is_response(m: OutMessage) -> bool {
    m.external_outbound && m.has_body && m.answers_function
}

/// Picks the first outbound message that is an external outbound
/// response of the function; earlier messages are not responses.
pub fn select_output_message(msgs: &Vec<OutMessage>) -> (r: Option<usize>)
    ensures
        match r {
            Some(i) => {
                &&& i < msgs@.len()
                &&& is_response(msgs@[i as int])
                &&& forall|j: int| 0 <= j < i ==> !is_response(#[trigger] msgs@[j])
            },
            None => forall|j: int| 0 <= j < msgs@.len() ==> !is_response(#[trigger] msgs@[j]),
        },
{
    let n = msgs.len();
    let mut i: usize = 0;
    while i < n
        invariant
            i <= n == msgs@.len(),
            forall|j: int| 0 <= j < i ==> !is_response(#[trigger] msgs@[j]),
        decreases n - i,
    {
        let m = msgs[i];
        if m.external_outbound && m.has_body && m.answers_function {
            return Some(i);
        }
        i = i + 1;
    }
    None
}

/// Whether a message body opens with the pinned ABI version and the
/// expected function identifier; reads the reader forward past both.
pub fn is_matching_output(slice: &mut SliceData, expected_id: u32) -> (r: bool)
    requires
        s_inv(old(slice)@),
    ensures
        match s_read_bits(old(slice)@, 40) {
            Option::Some((bs, _)) => r == (bits_val(bs.take(8)) == crate::ABI_VERSION as nat
                && bits_val(bs.skip(8)) == expected_id as nat),
            Option::None => r == false,
        },
{
    let ghost s0 = slice@;
    let version = match slice.get_next_byte() {
        Ok(v) => v,
        Err(_) => {
            proof {
                lemma_read_split(s0);
            }
            return false;
        },
    };
    let ghost s1 = slice@;
    let fid = match slice.get_next_u32() {
        Ok(v) => v,
        Err(_) => {
            proof {
                lemma_read_split(s0);
            }
            return false;
        },
    };
    proof {
        lemma_read_split(s0);
        crate::slice::lemma_bits_val_bound(s_read_bits(s0, 8)->Some_0.0);
        crate::slice::lemma_read_bits_len(s0, 8);
    }
    version == crate::ABI_VERSION && fid == expected_id
}

/// Splitting a 40-bit read into its first byte and the following word.
proof fn lemma_read_split(s: crate::slice::SliceV)
    ensures
        s_read_bits(s, 40) is Some <==> (s_read_bits(s, 8) is Some && s_read_bits(
            s_read_bits(s, 8)->Some_0.1,
            32,
        ) is Some),
        s_read_bits(s, 40) is Some ==> {
            let whole = s_read_bits(s, 40)->Some_0.0;
            let first = s_read_bits(s, 8)->Some_0.0;
            let rest = s_read_bits(s_read_bits(s, 8)->Some_0.1, 32)->Some_0.0;
            whole.take(8) == first && whole.skip(8) == rest && s_read_bits(s, 40)->Some_0.1
                == s_read_bits(s_read_bits(s, 8)->Some_0.1, 32)->Some_0.1
        },
{
    lemma_read_bits_split(s, 8, 32);
}

/// A fee summary rendered as decimal strings.
pub struct LocalRunFees {
    /// Forward fee of the inbound message.
    pub in_msg_fwd_fee: String,
    /// Storage fee.
    pub storage_fee: String,
    /// Gas fee.
    pub gas_fee: String,
    /// Forward fees of the outbound messages.
    pub out_msgs_fwd_fee: String,
    /// Total fees charged to the account.
    pub total_account_fees: String,
    /// Total value sent out.
    pub total_output: String,
}

/// The decimal digits of `n`, most significant first.
pub open spec fn dec_chars(n: nat) -> Seq<char>
    decreases n,
{
    if n < 10 {
        seq![digit_char(n)]
    } else {
        dec_chars(n / 10).push(digit_char(n % 10))
    }
}

/// The character of one decimal digit.
pub open spec fn digit_char(d: nat) -> char {
    if d == 0 {
        '0'
    } else if d == 1 {
        '1'
    } else if d == 2 {
        '2'
    } else if d == 3 {
        '3'
    } else if d == 4 {
        '4'
    } else if d == 5 {
        '5'
    } else if d == 6 {
        '6'
    } else if d == 7 {
        '7'
    } else if d == 8 {
        '8'
    } else {
        '9'
    }
}

/// Renders a fee counter as its decimal string.
pub fn long_num_to_json_string(n: u64) -> (r: String)
    ensures
        r@ == dec_chars(n as nat),
{
    let mut out = String::new();
    push_dec_chars(&mut out, n);
    proof {
        assert(Seq::<char>::empty() + dec_chars(n as nat) =~= dec_chars(n as nat));
    }
    out
}

/// Appends the decimal digits of `n` to a string.
fn push_dec_chars(out: &mut String, n: u64)
    ensures
        final(out)@ == old(out)@ + dec_chars(n as nat),
    decreases n,
{
    if n >= 10 {
        push_dec_chars(out, n / 10);
    }
    let d = n % 10;
    if d == 0 {
        out.append("0");
        proof {
            reveal_strlit("0");
        }
    } else if d == 1 {
        out.append("1");
        proof {
            reveal_strlit("1");
        }
    } else if d == 2 {
        out.append("2");
        proof {
            reveal_strlit("2");
        }
    } else if d == 3 {
        out.append("3");
        proof {
            reveal_strlit("3");
        }
    } else if d == 4 {
        out.append("4");
        proof {
            reveal_strlit("4");
        }
    } else if d == 5 {
        out.append("5");
        proof {
            reveal_strlit("5");
        }
    } else if d == 6 {
        out.append("6");
        proof {
            reveal_strlit("6");
        }
    } else if d == 7 {
        out.append("7");
        proof {
            reveal_strlit("7");
        }
    } else if d == 8 {
        out.append("8");
        proof {
            reveal_strlit("8");
        }
    } else {
        out.append("9");
        proof {
            reveal_strlit("9");
        }
    }
    proof {
        assert(final(out)@ =~= old(out)@ + dec_chars(n as nat));
    }
}

impl LocalRunFees {
    /// A fee summary from the raw counters of a local run.
    pub fn from_parts(
        in_msg_fwd_fee: u64,
        storage_fee: u64,
        gas_fee: u64,
        out_msgs_fwd_fee: u64,
        total_account_fees: u64,
        total_output: u64,
    ) -> (r: LocalRunFees)
        ensures
            r.in_msg_fwd_fee@ == dec_chars(in_msg_fwd_fee as nat),
            r.storage_fee@ == dec_chars(storage_fee as nat),
            r.gas_fee@ == dec_chars(gas_fee as nat),
            r.out_msgs_fwd_fee@ == dec_chars(out_msgs_fwd_fee as nat),
            r.total_account_fees@ == dec_chars(total_account_fees as nat),
            r.total_output@ == dec_chars(total_output as nat),
    {
        LocalRunFees {
            in_msg_fwd_fee: long_num_to_json_string(in_msg_fwd_fee),
            storage_fee: long_num_to_json_string(storage_fee),
            gas_fee: long_num_to_json_string(gas_fee),
            out_msgs_fwd_fee: long_num_to_json_string(out_msgs_fwd_fee),
            total_account_fees: long_num_to_json_string(total_account_fees),
            total_output: long_num_to_json_string(total_output),
        }
    }
}

/// Whether a run can deliver a decoded output at all: it needs an ABI,
/// a function with outputs, and at least one outbound message.
pub open spec fn run_produces_output(has_abi: bool, function_has_output: bool, n_out_messages: nat) -> bool {
    has_abi && function_has_output && n_out_messages > 0
}

/// Decides whether a finished run should decode an output message or
/// only classify the transaction: with no ABI, no declared outputs or
/// no outbound messages there is nothing to decode, and an aborted
/// transaction surfaces its failure instead.
pub fn process_transaction_outcome(
    has_abi: bool,
    function_has_output: bool,
    n_out_messages: usize,
    status: &TransactionStatus,
) -> (r: Result<bool, TransactionFailure>)
    ensures
        r == (if run_produces_output(has_abi, function_has_output, n_out_messages as nat) {
            Result::<bool, TransactionFailure>::Ok(true)
        } else {
            match status_outcome(*status) {
                Ok(()) => Result::<bool, TransactionFailure>::Ok(false),
                Err(e) => Err(e),
            }
        }),
{
    if has_abi && function_has_output && n_out_messages > 0 {
        Ok(true)
    } else {
        match check_transaction_status(status) {
            Ok(()) => Ok(false),
            Err(e) => Err(e),
        }
    }
}

} // verus!
