use ioqp::query::Query;
use ioqp::query::Term;
use ioqp::query::MAX_TERM_WEIGHT;

#[test]
fn parse_multi_colon() {
    let query = "111:this has no colon";
    let expected = Query {
        id: 111,
        tokens: vec![
            Term { token: "this".to_string(), freq: 1 },
            Term { token: "no".to_string(), freq: 1 },
            Term { token: "has".to_string(), freq: 1 },
            Term { token: "colon".to_string(), freq: 1 },
        ],
    };
    assert_eq!(expected, Query::parse_str(query).unwrap());

    let query = "112:this has : one colon";
    let expected = Query {
        id: 112,
        tokens: vec![
            Term { token: "this".to_string(), freq: 1 },
            Term { token: "one".to_string(), freq: 1 },
            Term { token: "has".to_string(), freq: 1 },
            Term { token: "colon".to_string(), freq: 1 },
            Term { token: ":".to_string(), freq: 1 },
        ],
    };
    assert_eq!(expected, Query::parse_str(query).unwrap());

    let query = "113:this has : : : many : : : colons";
    let expected = Query {
        id: 113,
        tokens: vec![
            Term { token: "this".to_string(), freq: 1 },
            Term { token: "many".to_string(), freq: 1 },
            Term { token: "has".to_string(), freq: 1 },
            Term { token: "colons".to_string(), freq: 1 },
            Term { token: ":".to_string(), freq: 6 },
        ],
    };
    assert_eq!(expected, Query::parse_str(query).unwrap());
}

#[test]
fn parse_rejects_bad_lines() {
    assert_eq!(Query::parse_str("no colon here"), None);
    assert_eq!(Query::parse_str(":missing id"), None);
    assert_eq!(Query::parse_str("12x:bad digits"), None);
    assert_eq!(Query::parse_str("99999999999999999999999999:overflow"), None);
}

#[test]
fn parse_empty_token_list() {
    let q = Query::parse_str("7:   ").unwrap();
    assert_eq!(q.id, 7);
    assert!(q.tokens.is_empty());
}

// The weighted query of the scenario: two `cat`s and one `dog` stay below
// the weight ceiling, so nothing is rescaled.
#[test]
fn weighted_query_keeps_small_freqs() {
    let mut q = Query::parse_str("1: cat cat dog").unwrap();
    assert_eq!(
        q.tokens,
        vec![
            Term { token: "dog".to_string(), freq: 1 },
            Term { token: "cat".to_string(), freq: 2 },
        ]
    );
    q.rescale(MAX_TERM_WEIGHT);
    assert_eq!(q.tokens[0].freq, 1);
    assert_eq!(q.tokens[1].freq, 2);
}

#[test]
fn rescale_exact_ceilings() {
    let tokens = vec![
        Term { token: "a".to_string(), freq: 64 },
        Term { token: "b".to_string(), freq: 32 },
        Term { token: "c".to_string(), freq: 1 },
    ];
    let q = Query::with_rescale(9, tokens, 32);
    // ceil(32 * 64 / 64) = 32, ceil(32 * 32 / 64) = 16, ceil(32 * 1 / 64) = 1
    assert_eq!(q.tokens[0].freq, 32);
    assert_eq!(q.tokens[1].freq, 16);
    assert_eq!(q.tokens[2].freq, 1);
}

#[test]
fn rescale_to_unweighted() {
    let tokens = vec![
        Term { token: "a".to_string(), freq: 5 },
        Term { token: "b".to_string(), freq: 2 },
    ];
    let q = Query::with_rescale(3, tokens, 1);
    assert_eq!(q.tokens[0].freq, 1);
    assert_eq!(q.tokens[1].freq, 1);
}
