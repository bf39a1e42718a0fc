use tx_pusher::store::{parse_chain_set, render_chain_set, str_is_json_safe};
use tx_pusher::types::{Inscription, Tx};

fn unsent(hex: &str) -> Tx {
    Tx { pushed: false, tx_hex: hex.to_string(), tx_id: None }
}

fn sent(hex: &str, id: &str) -> Tx {
    Tx { pushed: true, tx_hex: hex.to_string(), tx_id: Some(id.to_string()) }
}

fn render_to_string(cs: &Vec<Inscription>) -> String {
    render_chain_set(cs).iter().collect()
}

fn parse_str(s: &str) -> Option<Vec<Inscription>> {
    let chars: Vec<char> = s.chars().collect();
    parse_chain_set(&chars)
}

#[test]
fn rendering_matches_the_documented_format() {
    let cs = vec![Inscription { inscription_number: 7, txs: vec![unsent("ab")] }];
    assert_eq!(
        render_to_string(&cs),
        "[{\"inscriptionNumber\":7,\"txs\":[{\"pushed\":false,\"txHex\":\"ab\",\"txId\":null}]}]"
    );
}

#[test]
fn rendering_an_empty_set() {
    assert_eq!(render_to_string(&Vec::new()), "[]");
}

#[test]
fn rendering_negative_numbers_and_identifiers() {
    let cs = vec![Inscription {
        inscription_number: -42,
        txs: vec![sent("00ff", "ab")],
    }];
    assert_eq!(
        render_to_string(&cs),
        "[{\"inscriptionNumber\":-42,\"txs\":[{\"pushed\":true,\"txHex\":\"00ff\",\"txId\":\"ab\"}]}]"
    );
}

#[test]
fn saving_then_loading_gives_the_same_set() {
    let cs = vec![
        Inscription { inscription_number: 0, txs: Vec::new() },
        Inscription {
            inscription_number: -9007199254740991,
            txs: vec![sent("aa", "1111"), unsent("bb"), unsent("")],
        },
        Inscription {
            inscription_number: i64::MAX,
            txs: vec![sent("deadbeef", "")],
        },
    ];
    let doc = render_chain_set(&cs);
    let back = parse_chain_set(&doc).expect("a saved set loads back");
    assert_eq!(back, cs);
}

#[test]
fn null_identifier_differs_from_empty_string() {
    let with_null = vec![Inscription {
        inscription_number: 1,
        txs: vec![Tx { pushed: false, tx_hex: "aa".to_string(), tx_id: None }],
    }];
    let with_empty = vec![Inscription {
        inscription_number: 1,
        txs: vec![Tx { pushed: false, tx_hex: "aa".to_string(), tx_id: Some(String::new()) }],
    }];
    let doc_null = render_to_string(&with_null);
    let doc_empty = render_to_string(&with_empty);
    assert_ne!(doc_null, doc_empty);
    assert!(doc_null.contains("\"txId\":null"));
    assert!(doc_empty.contains("\"txId\":\"\""));
    let back_null = parse_str(&doc_null).unwrap();
    let back_empty = parse_str(&doc_empty).unwrap();
    assert_eq!(back_null, with_null);
    assert_eq!(back_empty, with_empty);
    assert_ne!(back_null, back_empty);
}

#[test]
fn parsing_the_canonical_document() {
    let doc = "[{\"inscriptionNumber\":-3,\"txs\":[{\"pushed\":true,\"txHex\":\"ab\",\"txId\":\"cd\"},{\"pushed\":false,\"txHex\":\"ef\",\"txId\":null}]},{\"inscriptionNumber\":12,\"txs\":[]}]";
    let cs = parse_str(doc).expect("canonical document parses");
    assert_eq!(cs.len(), 2);
    assert_eq!(cs[0].inscription_number, -3);
    assert_eq!(cs[0].txs, vec![sent("ab", "cd"), unsent("ef")]);
    assert_eq!(cs[1].inscription_number, 12);
    assert!(cs[1].txs.is_empty());
    assert_eq!(parse_str("[]"), Some(Vec::new()));
}

#[test]
fn malformed_documents_are_rejected() {
    for doc in [
        "",
        "[",
        "]",
        "[]x",
        "x[]",
        "[{}]",
        "[ ]",
        "[{\"inscriptionNumber\":1,\"txs\":[]}",
        "[{\"inscriptionNumber\":01,\"txs\":[]}]",
        "[{\"inscriptionNumber\":-0,\"txs\":[]}]",
        "[{\"inscriptionNumber\":1.5,\"txs\":[]}]",
        "[{\"inscriptionNumber\":99999999999999999999,\"txs\":[]}]",
        "[{\"txs\":[],\"inscriptionNumber\":1}]",
        "[{\"inscriptionNumber\":1,\"txs\":[],}]",
        "[{\"inscriptionNumber\":1,\"txs\":[{\"pushed\":maybe,\"txHex\":\"\",\"txId\":null}]}]",
        "[{\"inscriptionNumber\":1,\"txs\":[{\"pushed\":true,\"txHex\":\"ab\\\"\",\"txId\":null}]}]",
        "[{\"inscriptionNumber\":1,\"txs\":[{\"pushed\":true,\"txHex\":\"ab\",\"txId\":null},]}]",
    ] {
        assert_eq!(parse_str(doc), None, "{doc:?} should be rejected");
    }
}

#[test]
fn number_bounds_round_trip() {
    for n in [i64::MIN, i64::MIN + 1, -1, 0, 1, 10, 255, i64::MAX - 1, i64::MAX] {
        let cs = vec![Inscription { inscription_number: n, txs: Vec::new() }];
        let back = parse_str(&render_to_string(&cs)).unwrap();
        assert_eq!(back, cs);
    }
}

#[test]
fn json_safety_check() {
    assert!(str_is_json_safe("0123abcdef"));
    assert!(str_is_json_safe(""));
    assert!(!str_is_json_safe("ab\"cd"));
    assert!(!str_is_json_safe("ab\\cd"));
}
