use tpx::batch::PatternPredictor;

#[test]
fn test_pattern_predictor() {
    let mut predictor = PatternPredictor::new();
    let seq = vec![100u64, 200, 300, 100, 200, 300];
    predictor.record_sequence(&seq);

    let next = predictor.predict_next(100, 200);
    assert_eq!(next, Some(300));
}
