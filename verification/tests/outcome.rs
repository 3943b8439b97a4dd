use tvm_abi::bool_false;
use tvm_abi::call::get_function_id;
use tvm_abi::cell::CellBuilder;
use tvm_abi::slice::SliceData;
use tvm_abi::status::{
    check_transaction_status, is_matching_output, long_num_to_json_string,
    select_output_message, AccStatusChange, ActionStatus, LocalRunFees, OutMessage,
    TransactionFailure, TransactionStatus,
};
use tvm_abi::ABI_VERSION;

fn clean_status() -> TransactionStatus {
    TransactionStatus {
        aborted: false,
        storage_status: Some(AccStatusChange::Unchanged),
        compute_skipped: false,
        compute_success: Some(true),
        compute_exit_code: Some(0),
        action: Some(ActionStatus { success: true, result_code: 0, valid: true, no_funds: false }),
    }
}

#[test]
fn default_flag_is_false() {
    assert!(!bool_false());
}

#[test]
fn a_transaction_that_was_not_aborted_passes() {
    assert!(check_transaction_status(&clean_status()).is_ok());
}

#[test]
fn the_first_failing_phase_names_the_failure() {
    let mut t = clean_status();
    t.aborted = true;
    t.storage_status = Some(AccStatusChange::Frozen);
    assert_eq!(
        check_transaction_status(&t).unwrap_err(),
        TransactionFailure::StoragePhaseFailed(AccStatusChange::Frozen)
    );

    let mut t = clean_status();
    t.aborted = true;
    t.compute_skipped = true;
    assert_eq!(
        check_transaction_status(&t).unwrap_err(),
        TransactionFailure::ExecutionSkipped
    );

    let mut t = clean_status();
    t.aborted = true;
    t.compute_success = Some(false);
    t.compute_exit_code = Some(60);
    assert_eq!(
        check_transaction_status(&t).unwrap_err(),
        TransactionFailure::ExecutionFailed(60)
    );

    let mut t = clean_status();
    t.aborted = true;
    t.compute_success = None;
    t.compute_exit_code = None;
    assert_eq!(
        check_transaction_status(&t).unwrap_err(),
        TransactionFailure::ExecutionFailed(-1)
    );

    let mut t = clean_status();
    t.aborted = true;
    t.action = Some(ActionStatus { success: false, result_code: 37, valid: true, no_funds: true });
    assert_eq!(
        check_transaction_status(&t).unwrap_err(),
        TransactionFailure::ActionPhaseFailed(37, true, true)
    );

    let mut t = clean_status();
    t.aborted = true;
    assert_eq!(
        check_transaction_status(&t).unwrap_err(),
        TransactionFailure::Aborted
    );
}

#[test]
fn the_first_matching_response_is_selected() {
    let inbound = OutMessage { external_outbound: false, has_body: true, answers_function: true };
    let silent = OutMessage { external_outbound: true, has_body: false, answers_function: false };
    let answer = OutMessage { external_outbound: true, has_body: true, answers_function: true };
    assert_eq!(select_output_message(&vec![inbound, silent, answer, answer]), Some(2));
    assert_eq!(select_output_message(&vec![inbound, silent]), None);
    assert_eq!(select_output_message(&vec![]), None);
}

#[test]
fn fee_counters_render_as_decimal_strings() {
    assert_eq!(long_num_to_json_string(0), "0");
    assert_eq!(long_num_to_json_string(7), "7");
    assert_eq!(long_num_to_json_string(1000230), "1000230");
    assert_eq!(long_num_to_json_string(u64::MAX), "18446744073709551615");

    let fees = LocalRunFees::from_parts(1, 22, 333, 4444, 55555, 666666);
    assert_eq!(fees.in_msg_fwd_fee, "1");
    assert_eq!(fees.storage_fee, "22");
    assert_eq!(fees.gas_fee, "333");
    assert_eq!(fees.out_msgs_fwd_fee, "4444");
    assert_eq!(fees.total_account_fees, "55555");
    assert_eq!(fees.total_output, "666666");
}

#[test]
fn a_body_answers_its_own_function_only() {
    let id = get_function_id(&b"probe(uint8)(bool)".to_vec());

    let mut builder = CellBuilder::new();
    let mut bits = tvm_abi::bitstring::Bitstring::new();
    bits.append_u8(ABI_VERSION);
    bits.append_u32(id);
    builder.append_data(&bits).unwrap();
    let cell = builder.into_cell();

    let mut slice = SliceData::from_cell(cell.deep_copy());
    assert!(is_matching_output(&mut slice, id));

    let mut slice = SliceData::from_cell(cell.deep_copy());
    assert!(!is_matching_output(&mut slice, id.wrapping_add(1)));

    // a body too short to hold the header matches nothing
    let mut slice = SliceData::from_cell(CellBuilder::new().into_cell());
    assert!(!is_matching_output(&mut slice, id));
}
