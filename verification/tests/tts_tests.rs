use aeneas_rust::tts_engines::espeak_ng::EspeakNg;
use aeneas_rust::tts_engines::is_supported_engine;

#[test]
fn test_is_supported_engine() {
    assert!(is_supported_engine("espeak-ng"));
    assert!(!is_supported_engine("festival"));
    assert!(!is_supported_engine("espeak"));
    assert!(!is_supported_engine(""));
}

#[test]
fn test_espeak_command_line() {
    let engine = EspeakNg::new();
    assert_eq!(engine.program(), "espeak-ng");
    let args = engine.command_args("hello world", "/tmp/out.wav");
    assert_eq!(args, vec!["hello world", "-w", "/tmp/out.wav"]);
}
