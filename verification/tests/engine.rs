use relalg::Attribute;
use relalg::Comp;
use relalg::BinaryOpr;
use relalg::Data;
use relalg::Operator;
use relalg::ProjAttrs;
use relalg::Relation;
use relalg::Schema;
use relalg::SelPredicate;
use relalg::Type;
use relalg::UnaryOpr;
use relalg::Value;

fn create_test_schema() -> Schema {
    let schema = Schema {
        attributes: vec![
            Attribute {
                name: "key".to_string(),
                atype: Type::Int,
            },
            Attribute {
                name: "value".to_string(),
                atype: Type::Str,
            },
        ],
    };

    schema
}

fn create_test_relation() -> Relation {
    let schema = Schema {
        attributes: vec![
            Attribute {
                name: "key".to_string(),
                atype: Type::Int,
            },
            Attribute {
                name: "value".to_string(),
                atype: Type::Str,
            },
        ],
    };

    let relation = Relation {
        name: "test".to_string(),
        pk: Some(0),
        schema,
        data: Data::WithPK(Vec::new()),
    };

    relation
}

#[test]
fn it_works() {
    let result = relalg::add(2, 2);
    assert_eq!(result, 4);
}

#[test]
fn validate_invalid_row_schema() {
    let schema = create_test_schema();

    assert_eq!(
        schema.validate_row(&vec![Value::Str("foo".to_string()), Value::Int(1)]),
        false
    )
}

#[test]
fn validate_row_schema() {
    let schema = create_test_schema();

    assert_eq!(
        schema.validate_row(&vec![Value::Int(1), Value::Str("foo".to_string())]),
        true
    )
}

#[test]
fn test_insert_row() {
    let mut relation = create_test_relation();

    assert_eq!(
        relation.insert_row(vec![Value::Int(1), Value::Str("foo".to_string())]),
        true
    );

    println!("[TEST] data inserted: {:?}", &relation.data);

    assert_eq!(
        relation.insert_row(vec![Value::Int(1), Value::Str("bar".to_string())]),
        false
    );

    println!("[TEST] duplicate row not inserted");

    assert_eq!(
        relation.insert_rows(vec![
            vec![Value::Int(2), Value::Str("foo".to_string())],
            vec![Value::Int(3), Value::Str("bar".to_string())],
        ]),
        true
    );

    println!("[TEST] multiple inserts {:?}", &relation.data);

    assert_eq!(
        relation.insert_rows(vec![
            vec![Value::Int(1), Value::Str("foo".to_string())],
            vec![Value::Int(2), Value::Str("bar".to_string())],
            vec![Value::Int(3), Value::Str("baz".to_string())],
        ]),
        false
    );

    println!("[TEST] not inserting rows if duplicates found");

    assert_eq!(
        relation.insert_rows(vec![
            vec![Value::Int(4), Value::Str("apple".to_string())],
            vec![Value::Int(5), Value::Str("orange".to_string())],
            vec![Value::Int(6), Value::Str("orange".to_string())],
        ]),
        true
    );

    println!("[TEST] multiple inserts {:?}", &relation.data);
}

#[test]
fn basic_projections() {
    let mut relation = create_test_relation();

    relation.insert_rows(vec![
        vec![Value::Int(1), Value::Str("foo".to_string())],
        vec![Value::Int(2), Value::Str("bar".to_string())],
        vec![Value::Int(3), Value::Str("baz".to_string())],
    ]);

    let select_all = Operator::Unary(UnaryOpr::Projection(ProjAttrs::All, &relation));
    let result = select_all.evaluate();

    assert_eq!(result.is_some(), true);

    assert_eq!(
        result.as_ref().unwrap().data.tuples(),
        vec![
            vec![Value::Int(1), Value::Str("foo".to_string())],
            vec![Value::Int(2), Value::Str("bar".to_string())],
            vec![Value::Int(3), Value::Str("baz".to_string())],
        ]
    );

    println!("[TEST] query result: {:?}", result.unwrap());

    let select_value_attr = Operator::Unary(UnaryOpr::Projection(
        ProjAttrs::Attr(
            Attribute {
                name: "value".to_string(),
                atype: Type::Str,
            },
            None,
        ),
        &relation,
    ));

    let result = select_value_attr.evaluate();
    assert_eq!(result.is_some(), true);
    let mut left = result.as_ref().unwrap().data.tuples();
    let mut right = vec![
        vec![Value::Str("foo".to_string())],
        vec![Value::Str("bar".to_string())],
        vec![Value::Str("baz".to_string())],
    ];

    left.sort();
    right.sort();
    assert_eq!(left, right);

    println!("[TEST] selecting a single attribute {:?}", result);
}

#[test]
fn test_remove_duplicates() {
    let mut relation = Relation {
        name: "pk_less".to_string(),
        pk: Some(0),
        schema: Schema {
            attributes: vec![
                Attribute {
                    name: "id".to_string(),
                    atype: Type::Int,
                },
                Attribute {
                    name: "value".to_string(),
                    atype: Type::Str,
                },
            ],
        },
        data: Data::WithPK(Vec::new()),
    };

    let insert_result = relation.insert_rows(vec![
        vec![Value::Int(1), Value::Str("foo".to_string())],
        vec![Value::Int(2), Value::Str("bar".to_string())],
        vec![Value::Int(3), Value::Str("baz".to_string())],
        vec![Value::Int(4), Value::Str("foo".to_string())],
    ]);

    assert!(insert_result);
    assert_eq!(
        relation.data.tuples(),
        vec![
            vec![Value::Int(1), Value::Str("foo".to_string())],
            vec![Value::Int(2), Value::Str("bar".to_string())],
            vec![Value::Int(3), Value::Str("baz".to_string())],
            vec![Value::Int(4), Value::Str("foo".to_string())],
        ]
    );

    let query = Operator::Unary(UnaryOpr::Projection(
        ProjAttrs::Attr(
            Attribute {
                name: "value".to_string(),
                atype: Type::Str,
            },
            None,
        ),
        &relation,
    ));
    let result = query.evaluate();
    assert!(result.is_some());

    let mut left = result.as_ref().unwrap().data.tuples();
    let mut right = vec![
        vec![Value::Str("foo".to_string())],
        vec![Value::Str("bar".to_string())],
        vec![Value::Str("baz".to_string())],
    ];

    left.sort();
    right.sort();
    assert_eq!(left, right);

    println!("[test] Project removed duplicate tuples");

    let derived = result.unwrap();
    assert!(derived.pk.is_none());

    let derived_query = Operator::Unary(UnaryOpr::Projection(ProjAttrs::All, &derived));
    let derived_query_result = derived_query.evaluate();

    assert!(derived_query_result.is_some());

    let mut left = derived_query_result.as_ref().unwrap().data.tuples();
    let mut right = vec![
        vec![Value::Str("foo".to_string())],
        vec![Value::Str("bar".to_string())],
        vec![Value::Str("baz".to_string())],
    ];

    left.sort();
    right.sort();
    assert_eq!(left, right);
    assert!(derived_query_result.unwrap().pk.is_none());

    println!("[test] Project removed duplicate tuples");
}

#[test]
fn test_user_schema() {
    // tbl users
    // | id INT PK | name STR | phone INT
    let mut relation = Relation {
        name: "users".to_string(),
        pk: Some(0),
        schema: Schema {
            attributes: vec![
                Attribute {
                    name: "id".to_string(),
                    atype: Type::Int,
                },
                Attribute {
                    name: "name".to_string(),
                    atype: Type::Str,
                },
                Attribute {
                    name: "phone".to_string(),
                    atype: Type::Int,
                },
            ],
        },
        data: Data::WithPK(Vec::new()),
    };

    // 100 | bob | 9999999999
    // 101 | alice | 6666666666
    let insert_result = relation.insert_rows(vec![
        vec![
            Value::Int(100),
            Value::Str("bob".to_string()),
            Value::Int(9999999999),
        ],
        vec![
            Value::Int(101),
            Value::Str("alice".to_string()),
            Value::Int(6666666666),
        ],
    ]);
    assert!(insert_result);

    // pi_{name, phone}
    let query = Operator::Unary(UnaryOpr::Projection(
        ProjAttrs::Attr(
            Attribute {
                name: "name".to_string(),
                atype: Type::Str,
            },
            Some(Box::new(ProjAttrs::Attr(
                Attribute {
                    name: "phone".to_string(),
                    atype: Type::Int,
                },
                None,
            ))),
        ),
        &relation,
    ));

    let result = query.evaluate();

    // tbl derived
    // bob | 9999999999
    // alice | 6666666666
    let mut left = result.as_ref().unwrap().data.tuples();
    let mut right = vec![
        vec![Value::Str("bob".to_string()), Value::Int(9999999999)],
        vec![Value::Str("alice".to_string()), Value::Int(6666666666)],
    ];

    left.sort();
    right.sort();
    assert_eq!(left, right);
}

#[test]
fn insert_row_rejects_schema_mismatch() {
    let mut relation = create_test_relation();

    // wrong arity
    assert_eq!(relation.insert_row(vec![Value::Int(1)]), false);
    // wrong type at a position
    assert_eq!(
        relation.insert_row(vec![Value::Str("1".to_string()), Value::Str("foo".to_string())]),
        false
    );
    assert_eq!(relation.data.tuples().len(), 0);
}

#[test]
fn insert_rows_atomic_on_invalid_row() {
    let mut relation = create_test_relation();

    assert!(relation.insert_row(vec![Value::Int(1), Value::Str("foo".to_string())]));
    let before = relation.data.tuples();

    // the second row has the wrong type: nothing of the batch is kept
    assert_eq!(
        relation.insert_rows(vec![
            vec![Value::Int(2), Value::Str("bar".to_string())],
            vec![Value::Int(3), Value::Int(3)],
        ]),
        false
    );
    assert_eq!(relation.data.tuples(), before);

    // a key already stored: nothing of the batch is kept either
    assert_eq!(
        relation.insert_rows(vec![
            vec![Value::Int(2), Value::Str("bar".to_string())],
            vec![Value::Int(1), Value::Str("baz".to_string())],
        ]),
        false
    );
    assert_eq!(relation.data.tuples(), before);
}

#[test]
fn surrogate_relation_permits_duplicates() {
    let mut relation = Relation {
        name: "plain".to_string(),
        pk: None,
        schema: create_test_schema(),
        data: Data::NoPK(Vec::new()),
    };

    let row = vec![Value::Int(7), Value::Str("foo".to_string())];
    assert!(relation.insert_row(row.clone()));
    assert!(relation.insert_row(row.clone()));
    assert_eq!(relation.data.tuples(), vec![row.clone(), row.clone()]);

    // select-all projection collapses the duplicates
    let query = Operator::Unary(UnaryOpr::Projection(ProjAttrs::All, &relation));
    let result = query.evaluate();
    assert!(result.is_some());
    let derived = result.unwrap();
    assert!(derived.pk.is_none());
    assert_eq!(derived.data.tuples(), vec![row]);
}

#[test]
fn projection_drops_key_and_renumbers() {
    let mut relation = create_test_relation();
    assert!(relation.insert_rows(vec![
        vec![Value::Int(1), Value::Str("foo".to_string())],
        vec![Value::Int(2), Value::Str("bar".to_string())],
        vec![Value::Int(3), Value::Str("baz".to_string())],
    ]));

    let query = Operator::Unary(UnaryOpr::Projection(
        ProjAttrs::Attr(
            Attribute {
                name: "value".to_string(),
                atype: Type::Str,
            },
            None,
        ),
        &relation,
    ));
    let result = query.evaluate();
    assert!(result.is_some());
    let derived = result.unwrap();

    // the key attribute was dropped: no declared key, surrogate storage,
    // identifiers 0..2 in enumeration order
    assert!(derived.pk.is_none());
    assert_eq!(
        derived.data.tuples(),
        vec![
            vec![Value::Str("foo".to_string())],
            vec![Value::Str("bar".to_string())],
            vec![Value::Str("baz".to_string())],
        ]
    );
}

#[test]
fn projection_keeps_key_at_new_position() {
    let mut relation = create_test_relation();
    assert!(relation.insert_rows(vec![
        vec![Value::Int(1), Value::Str("foo".to_string())],
        vec![Value::Int(2), Value::Str("bar".to_string())],
    ]));

    // request [value, key]: the key attribute survives at position 1
    let query = Operator::Unary(UnaryOpr::Projection(
        ProjAttrs::Attr(
            Attribute {
                name: "value".to_string(),
                atype: Type::Str,
            },
            Some(Box::new(ProjAttrs::Attr(
                Attribute {
                    name: "key".to_string(),
                    atype: Type::Int,
                },
                None,
            ))),
        ),
        &relation,
    ));
    let result = query.evaluate();
    assert!(result.is_some());
    let derived = result.unwrap();

    assert_eq!(derived.pk, Some(1));
    let mut left = derived.data.tuples();
    let mut right = vec![
        vec![Value::Str("foo".to_string()), Value::Int(1)],
        vec![Value::Str("bar".to_string()), Value::Int(2)],
    ];
    left.sort();
    right.sort();
    assert_eq!(left, right);

    // the derived relation still rejects its stored keys
    let mut derived = derived;
    assert_eq!(
        derived.insert_row(vec![Value::Str("qux".to_string()), Value::Int(1)]),
        false
    );
}

#[test]
fn projection_unknown_attribute_yields_none() {
    let mut relation = create_test_relation();
    assert!(relation.insert_row(vec![Value::Int(1), Value::Str("foo".to_string())]));

    // unknown name
    let query = Operator::Unary(UnaryOpr::Projection(
        ProjAttrs::Attr(
            Attribute {
                name: "missing".to_string(),
                atype: Type::Str,
            },
            None,
        ),
        &relation,
    ));
    assert!(query.evaluate().is_none());

    // known name, wrong type: attributes match by name and type together
    let query = Operator::Unary(UnaryOpr::Projection(
        ProjAttrs::Attr(
            Attribute {
                name: "value".to_string(),
                atype: Type::Int,
            },
            None,
        ),
        &relation,
    ));
    assert!(query.evaluate().is_none());
}

#[test]
fn selection_and_binary_yield_none() {
    let relation = create_test_relation();

    let selection = Operator::Unary(UnaryOpr::Selection(SelPredicate::Empty, &relation));
    assert!(selection.evaluate().is_none());

    let binary = Operator::Binary(BinaryOpr::Unsupported);
    assert!(binary.evaluate().is_none());

    assert_eq!(SelPredicate::Empty.validate(), false);
}

#[test]
fn keyed_storage_requires_key() {
    let mut data = Data::WithPK(Vec::new());
    // a keyed insert without a key is refused and changes nothing
    assert_eq!(
        data.insert(None, vec![Value::Int(1), Value::Str("foo".to_string())]),
        false
    );
    assert_eq!(data.tuples().len(), 0);
    // membership without a key is likewise false
    assert_eq!(data.contains(None, None), false);
}

#[test]
fn select_all_twice_is_idempotent() {
    let mut relation = create_test_relation();
    assert!(relation.insert_rows(vec![
        vec![Value::Int(1), Value::Str("foo".to_string())],
        vec![Value::Int(2), Value::Str("bar".to_string())],
        vec![Value::Int(3), Value::Str("baz".to_string())],
    ]));

    let once = Operator::Unary(UnaryOpr::Projection(ProjAttrs::All, &relation))
        .evaluate()
        .unwrap();
    let twice = Operator::Unary(UnaryOpr::Projection(ProjAttrs::All, &once))
        .evaluate()
        .unwrap();

    let mut first = once.data.tuples();
    let mut second = twice.data.tuples();
    first.sort();
    second.sort();
    assert_eq!(first, second);
}

#[test]
fn keyed_tuples_come_out_key_sorted() {
    let mut relation = create_test_relation();

    // inserted out of key order, enumerated in ascending key order
    assert!(relation.insert_row(vec![Value::Int(2), Value::Str("bar".to_string())]));
    assert!(relation.insert_row(vec![Value::Int(1), Value::Str("foo".to_string())]));
    assert!(relation.insert_rows(vec![
        vec![Value::Int(5), Value::Str("quux".to_string())],
        vec![Value::Int(3), Value::Str("baz".to_string())],
    ]));

    assert_eq!(
        relation.data.tuples(),
        vec![
            vec![Value::Int(1), Value::Str("foo".to_string())],
            vec![Value::Int(2), Value::Str("bar".to_string())],
            vec![Value::Int(3), Value::Str("baz".to_string())],
            vec![Value::Int(5), Value::Str("quux".to_string())],
        ]
    );
}

#[test]
fn string_keys_sort_lexicographically() {
    let mut relation = Relation {
        name: "people".to_string(),
        pk: Some(0),
        schema: Schema {
            attributes: vec![
                Attribute {
                    name: "name".to_string(),
                    atype: Type::Str,
                },
                Attribute {
                    name: "age".to_string(),
                    atype: Type::Int,
                },
            ],
        },
        data: Data::WithPK(Vec::new()),
    };

    assert!(relation.insert_row(vec![Value::Str("bob".to_string()), Value::Int(41)]));
    assert!(relation.insert_row(vec![Value::Str("alice".to_string()), Value::Int(39)]));
    assert!(relation.insert_row(vec![Value::Str("al".to_string()), Value::Int(7)]));

    assert_eq!(
        relation.data.tuples(),
        vec![
            vec![Value::Str("al".to_string()), Value::Int(7)],
            vec![Value::Str("alice".to_string()), Value::Int(39)],
            vec![Value::Str("bob".to_string()), Value::Int(41)],
        ]
    );
}

#[test]
fn validate_accepts_any_predicate() {
    let condition = SelPredicate::Condition(
        (
            Attribute {
                name: "key".to_string(),
                atype: Type::Int,
            },
            Comp::EQ,
            Value::Int(1),
        ),
        None,
    );
    assert_eq!(condition.validate(), false);
    assert_eq!(SelPredicate::Empty.validate(), false);
}
