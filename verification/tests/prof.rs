use rusty_png::prof::{
    reset, stage_name, Scope, StageTotals, DEC_INFLATE, DEC_TRANSFORM, DEC_UNFILTER, ENC_CHUNK,
    ENC_DEFLATE, ENC_FILTER, STAGE_COUNT,
};

#[test]
fn fresh_totals_list_nothing() {
    let t = StageTotals::new();
    assert!(t.nonempty_stages().is_empty());
    for i in 0..STAGE_COUNT {
        assert_eq!(t.bucket(i), (0, 0));
    }
}

#[test]
fn closing_a_scope_adds_time_and_a_call() {
    let mut t = StageTotals::new();
    Scope::new(ENC_DEFLATE, 100).close(&mut t, 350);
    Scope::new(ENC_DEFLATE, 1000).close(&mut t, 1010);
    Scope::new(DEC_UNFILTER, 5).close(&mut t, 6);
    assert_eq!(t.bucket(ENC_DEFLATE), (260, 2));
    assert_eq!(t.bucket(DEC_UNFILTER), (1, 1));
    assert_eq!(t.bucket(ENC_FILTER), (0, 0));
    assert_eq!(t.nonempty_stages(), vec![(ENC_DEFLATE, 260, 2), (DEC_UNFILTER, 1, 1)]);
}

#[test]
fn clock_going_back_counts_no_time() {
    let mut t = StageTotals::new();
    Scope::new(ENC_CHUNK, 500).close(&mut t, 400);
    assert_eq!(t.bucket(ENC_CHUNK), (0, 1));
}

#[test]
fn time_saturates() {
    let mut t = StageTotals::new();
    Scope::new(DEC_INFLATE, 0).close(&mut t, u64::MAX);
    Scope::new(DEC_INFLATE, 0).close(&mut t, 10);
    assert_eq!(t.bucket(DEC_INFLATE), (u64::MAX, 2));
}

#[test]
fn reset_clears_all_buckets() {
    let mut t = StageTotals::new();
    Scope::new(DEC_TRANSFORM, 1).close(&mut t, 3);
    Scope::new(ENC_FILTER, 1).close(&mut t, 3);
    assert_eq!(t.nonempty_stages().len(), 2);
    reset(&mut t);
    assert!(t.nonempty_stages().is_empty());
    assert_eq!(t.bucket(DEC_TRANSFORM), (0, 0));
}

#[test]
fn stage_names() {
    let names: Vec<&str> = (0..STAGE_COUNT).map(stage_name).collect();
    assert_eq!(
        names,
        vec!["enc.filter", "enc.deflate", "enc.chunk", "dec.inflate", "dec.unfilter", "dec.transform"]
    );
}
