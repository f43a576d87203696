use cam_granular::dsp_api::ParamIndex;
use cam_granular::faust_gen::newmydspSIG0;

#[test]
fn fresh_sub_signal_counts_phases() {
    let mut sig = newmydspSIG0();
    assert_eq!(sig.get_num_inputsmydspSIG0(), 0);
    assert_eq!(sig.get_num_outputsmydspSIG0(), 1);
    sig.instance_initmydspSIG0(44100);
    let phases = sig.fill_phasesmydspSIG0(5);
    assert_eq!(phases, vec![0, 1, 2, 3, 4]);
}

#[test]
fn phases_wrap_after_one_table() {
    let mut sig = newmydspSIG0();
    sig.instance_initmydspSIG0(48000);
    let phases = sig.fill_phasesmydspSIG0(65538);
    assert_eq!(phases[65535], 65535);
    assert_eq!(phases[65536], 0);
    assert_eq!(phases[65537], 1);
}

#[test]
fn filling_continues_where_it_stopped() {
    let mut sig = newmydspSIG0();
    sig.instance_initmydspSIG0(44100);
    sig.fill_phasesmydspSIG0(3);
    assert_eq!(sig.fill_phasesmydspSIG0(2), vec![3, 4]);
    assert!(sig.fill_phasesmydspSIG0(0).is_empty());
    assert!(sig.fill_phasesmydspSIG0(-4).is_empty());
}

#[test]
fn init_clears_state() {
    let mut sig = newmydspSIG0();
    sig.fill_phasesmydspSIG0(10);
    sig.instance_initmydspSIG0(44100);
    assert_eq!(sig.iVec1, [0, 0]);
    assert_eq!(sig.iRec2, [0, 0]);
}

#[test]
fn param_index_is_a_plain_handle() {
    let p = ParamIndex(3);
    let q = p;
    assert_eq!(p.0, q.0);
}

#[test]
fn filling_leaves_the_current_values_in_slot_zero() {
    let mut sig = newmydspSIG0();
    sig.instance_initmydspSIG0(44100);
    sig.fill_phasesmydspSIG0(4);
    assert_eq!(sig.iVec1, [1, 1]);
    assert_eq!(sig.iRec2, [3, 3]);
    sig.iVec1[0] = 7;
    sig.fill_phasesmydspSIG0(0);
    assert_eq!(sig.iVec1, [7, 1]);
    assert_eq!(sig.iRec2, [3, 3]);
}
