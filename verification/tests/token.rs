use zk_llm_gateway::token::{pad_to_len, trim_zero_padding, PaddingError, TokenClass};

#[test]
fn token_class_limits_are_monotonic() {
    let classes = [
        TokenClass::C256,
        TokenClass::C512,
        TokenClass::C1024,
        TokenClass::C2048,
        TokenClass::C4096,
    ];

    for window in classes.windows(2) {
        let left = window[0];
        let right = window[1];

        assert!(left.max_prompt_bytes() < right.max_prompt_bytes());
        assert!(left.max_completion_tokens() < right.max_completion_tokens());
        assert!(
            left.envelope_request_plaintext_bytes() < right.envelope_request_plaintext_bytes()
        );
        assert!(
            left.envelope_response_plaintext_bytes() < right.envelope_response_plaintext_bytes()
        );
        assert!(left.id_u8() < right.id_u8());
    }
}

#[test]
fn token_class_values() {
    let expected = [
        (TokenClass::C256, 2_048, 256, 8_192, 8_192, 1, "c256"),
        (TokenClass::C512, 4_096, 512, 12_288, 16_384, 2, "c512"),
        (TokenClass::C1024, 8_192, 1_024, 20_480, 32_768, 3, "c1024"),
        (TokenClass::C2048, 16_384, 2_048, 36_864, 65_536, 4, "c2048"),
        (TokenClass::C4096, 32_768, 4_096, 69_632, 131_072, 5, "c4096"),
    ];
    for (class, prompt, completion, request, response, id, name) in expected {
        assert_eq!(class.max_prompt_bytes(), prompt);
        assert_eq!(class.max_completion_tokens(), completion);
        assert_eq!(class.envelope_request_plaintext_bytes(), request);
        assert_eq!(class.envelope_response_plaintext_bytes(), response);
        assert_eq!(class.id_u8(), id);
        assert_eq!(class.wire_name(), name);
    }
}

#[test]
fn pad_to_len_adds_zero_bytes() {
    let data = vec![1u8, 2, 3];
    let padded = pad_to_len(data.clone(), 8).expect("padding should succeed");
    assert_eq!(padded.len(), 8);
    assert_eq!(&padded[..3], data.as_slice());
    assert_eq!(&padded[3..], &[0u8; 5]);
}

#[test]
fn padding_shared_test_vector() {
    let data = b"{\"x\":1}".to_vec();
    let padded = pad_to_len(data.clone(), 16).expect("padding should succeed");
    assert_eq!(
        padded,
        vec![0x7b, 0x22, 0x78, 0x22, 0x3a, 0x31, 0x7d, 0, 0, 0, 0, 0, 0, 0, 0, 0]
    );
    assert_eq!(trim_zero_padding(&padded), data.as_slice());
}

#[test]
fn pad_to_len_rejects_large_payloads() {
    let err = pad_to_len(vec![1u8, 2, 3, 4], 3).expect_err("payload should be rejected");
    match err {
        PaddingError::TooLarge { len, max } => {
            assert_eq!(len, 4);
            assert_eq!(max, 3);
        }
    }
}

#[test]
fn padding_error_names_both_lengths() {
    let err = pad_to_len(vec![1u8, 2, 3, 4], 3).expect_err("payload should be rejected");
    assert_eq!(err.message(), "payload too large for token class (len=4, max=3)");
}

#[test]
fn trim_zero_padding_keeps_non_zero_suffix() {
    let data = [1u8, 2, 0, 3, 0, 0];
    let trimmed = trim_zero_padding(&data);
    assert_eq!(trimmed, &[1u8, 2, 0, 3]);
}

#[test]
fn trimming_zeros_alone_leaves_nothing() {
    let empty: &[u8] = &[];
    assert_eq!(trim_zero_padding(&[0, 0, 0]), empty);
    assert_eq!(trim_zero_padding(&[]), empty);
}
