use hft_channel::spmc_broadcast::Message;
use hft_channel::state::{pack, unpack, Stamp, State, DIRTY_MASK};
use hft_channel::wide_state::{wide_pack, wide_unpack, State as WideState, WideStamp};

#[test]
fn state_packs_and_unpacks_clean() {
    let mut s = State::new(false, 123);
    let (dirty, seq) = s.load();
    assert!(!dirty);
    assert_eq!(seq, 123);

    // overwrite via store
    s.store(false, 999);
    let (dirty2, seq2) = s.load();
    assert!(!dirty2);
    assert_eq!(seq2, 999);
}

#[test]
fn state_packs_and_unpacks_dirty() {
    let mut s = State::new(true, 42);
    let (dirty, seq) = s.load();
    assert!(dirty);
    assert_eq!(seq, 42);

    s.store(true, 777);
    let (dirty2, seq2) = s.load();
    assert!(dirty2);
    assert_eq!(seq2, 777);
}

#[test]
fn a_default_state_is_empty() {
    let mut s = State::default();
    assert_eq!(s.load(), (false, 0));
    let mut w = WideState::default();
    assert_eq!(w.load(), (false, 0, 0));
}

#[test]
fn words_have_the_flag_in_the_top_bit() {
    assert_eq!(pack(false, 5), 5);
    assert_eq!(pack(true, 5), 0x8000_0000_0000_0005);
    assert_eq!(pack(false, DIRTY_MASK - 1), 0x7fff_ffff_ffff_ffff);
    assert_eq!(pack(true, DIRTY_MASK - 1), u64::MAX);
    assert_eq!(unpack(0), Stamp { dirty: false, seq_no: 0 });
    assert_eq!(unpack(0x8000_0000_0000_0001), Stamp { dirty: true, seq_no: 1 });
    assert_eq!(unpack(u64::MAX), Stamp { dirty: true, seq_no: DIRTY_MASK - 1 });
}

#[test]
fn a_number_that_does_not_fit_runs_into_the_flag() {
    assert_eq!(pack(false, DIRTY_MASK + 3), DIRTY_MASK + 3);
    assert_eq!(pack(true, DIRTY_MASK + 3), DIRTY_MASK + 3);
    let mut s = State::default();
    s.store(false, DIRTY_MASK + 3);
    assert_eq!(s.load(), (true, 3));
}

#[test]
fn words_and_stamps_go_back_and_forth() {
    for seq_no in [0, 1, 2, 0x1234_5678_9abc_def0, DIRTY_MASK - 1] {
        for dirty in [false, true] {
            assert_eq!(unpack(pack(dirty, seq_no)), Stamp { dirty, seq_no });
            for user_state in [0, 1, u64::MAX] {
                assert_eq!(
                    wide_unpack(wide_pack(dirty, seq_no, user_state)),
                    WideStamp { dirty, seq_no, user_state }
                );
            }
        }
    }
    for word in [0, 1, DIRTY_MASK, DIRTY_MASK + 1, u64::MAX] {
        let stamp = unpack(word);
        assert_eq!(pack(stamp.dirty, stamp.seq_no), word);
    }
    for word in [0, 1, 1u128 << 64, 1u128 << 127, u128::MAX] {
        let stamp = wide_unpack(word);
        assert_eq!(wide_pack(stamp.dirty, stamp.seq_no, stamp.user_state), word);
    }
}

#[test]
fn wide_words_have_three_fields() {
    assert_eq!(wide_pack(false, 0, 7), 7);
    assert_eq!(wide_pack(false, 3, 7), (3u128 << 64) + 7);
    assert_eq!(wide_pack(true, 3, 7), (1u128 << 127) + (3u128 << 64) + 7);
    assert_eq!(
        wide_unpack(u128::MAX),
        WideStamp { dirty: true, seq_no: DIRTY_MASK - 1, user_state: u64::MAX }
    );
}

#[test]
fn a_wide_state_keeps_what_is_stored() {
    let mut s = WideState::new(true, 42, 99);
    assert_eq!(s.load(), (true, 42, 99));
    s.store(false, 43, u64::MAX);
    assert_eq!(s.load(), (false, 43, u64::MAX));
    s.store(false, DIRTY_MASK + 1, 5);
    assert_eq!(s.load(), (true, 1, 5));
}

#[test]
fn states_are_shown_field_by_field() {
    assert_eq!(
        format!("{:?}", State::new(true, 42)),
        "State { dirty: true, seq_no: 42 }"
    );
    assert_eq!(
        format!("{:#?}", State::default()),
        "State {\n    dirty: false,\n    seq_no: 0,\n}"
    );
    assert_eq!(
        format!("{:?}", WideState::new(false, 7, 9)),
        "State { dirty: false, seq_no: 7, user_state: 9 }"
    );
    assert_eq!(
        format!("{:?}", Message::new(State::new(true, 1), 5u8)),
        "Message { state: CachePadded { value: State { dirty: true, seq_no: 1 } }, \
         payload: CachePadded { value: 5 } }"
    );
}
