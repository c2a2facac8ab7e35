use circuit_lab::compression::compression_result;

#[test]
fn failure_codes_give_messages() {
    assert_eq!(compression_result(1, vec![1]), Err("Stream error"));
    assert_eq!(compression_result(2, vec![1]), Err("Dict error"));
    assert_eq!(compression_result(-1, vec![1]), Err("Check errno"));
    assert_eq!(compression_result(-4, vec![1]), Err("Memory Error"));
    assert_eq!(compression_result(-5, vec![1]), Err("Buffer Error"));
    assert_eq!(compression_result(-6, vec![1]), Err("Version Error"));
}

#[test]
fn other_codes_hand_back_the_buffer() {
    assert_eq!(compression_result(0, vec![4, 5]), Ok(vec![4, 5]));
    assert_eq!(compression_result(-3, vec![6]), Ok(vec![6]));
    assert_eq!(compression_result(-10000, vec![]), Ok(vec![]));
}
