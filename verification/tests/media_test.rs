use audio_gen::media::first_channel;

#[test]
fn test_first_channel_of_stereo() {
    let samples = vec![Some(1), Some(2), Some(3), Some(4), Some(5)];
    assert_eq!(first_channel(samples, 2), vec![1, 3, 5]);
}

#[test]
fn test_first_channel_skips_unreadable() {
    let samples = vec![Some(1.0f32), Some(2.0), None, Some(4.0), Some(5.0), None];
    assert_eq!(first_channel(samples, 2), vec![1.0, 5.0]);
}

#[test]
fn test_first_channel_of_mono() {
    let samples = vec![Some(7u8), None, Some(9)];
    assert_eq!(first_channel(samples, 1), vec![7, 9]);
}

#[test]
fn test_first_channel_of_nothing() {
    let samples: Vec<Option<i16>> = vec![];
    assert!(first_channel(samples, 0).is_empty());
}
