use vtree_html::context::Context;
use vtree_html::differ::Differ;
use vtree_html::nodes::{
    expand_widgets, html_nodes_iter, ElemTag, Node, NodeKind, ParamValue, Params,
};
use vtree_html::patch::{param_to_ffi, params_to_ffi, Patch, PatchData};
use vtree_html::states::{DiffError, NodeStates};

fn text(s: &str) -> Node {
    Node::Text { content: s.to_string() }
}

fn div(params: Params, children: Vec<(u64, Node)>) -> Node {
    Node::Element { tag: ElemTag::Div, params, children }
}

fn keyed_texts(keys: &[u64]) -> Node {
    let children: Vec<(u64, Node)> = keys.iter().map(|k| (*k, text(&k.to_string()))).collect();
    div(Params::new(), children)
}

fn flag_params(key: &str, value: bool) -> Params {
    let mut p = Params::new();
    p.insert(key.to_string(), ParamValue::Flag(value));
    p
}

#[test]
fn initial_batch_of_five_texts() {
    let (_, batch) = Context::new(keyed_texts(&[0, 1, 2, 3, 4])).unwrap();
    // one Add for the element, then one Add and one SetText per child
    assert_eq!(batch.len(), 11);
    assert_eq!(
        batch[0],
        Patch {
            id: 1,
            data: PatchData::Add {
                parent_id: 0,
                kind: NodeKind::Element(ElemTag::Div),
                index: 0,
            },
        }
    );
    for c in 0..5u64 {
        let id = 2 + c;
        assert_eq!(
            batch[(1 + 2 * c) as usize],
            Patch {
                id,
                data: PatchData::Add {
                    parent_id: 1,
                    kind: NodeKind::Text,
                    index: c as usize,
                },
            }
        );
        assert_eq!(
            batch[(2 + 2 * c) as usize],
            Patch { id, data: PatchData::SetText { content: c.to_string() } }
        );
    }
}

#[test]
fn keyed_update_reorders_removes_and_adds() {
    let (mut ctx, _) = Context::new(keyed_texts(&[0, 1, 2, 3, 4])).unwrap();
    let batch = ctx.update(keyed_texts(&[4, 0, 6, 1, 2])).unwrap();
    assert_eq!(batch.len(), 4);
    assert_eq!(
        batch[0],
        Patch {
            id: 1,
            data: PatchData::Reorder {
                parent_id: 1,
                pairs: vec![(0, 4), (1, 0), (3, 1), (4, 2)],
            },
        }
    );
    assert_eq!(batch[1], Patch { id: 5, data: PatchData::Remove });
    assert_eq!(
        batch[2],
        Patch {
            id: 7,
            data: PatchData::Add { parent_id: 1, kind: NodeKind::Text, index: 2 },
        }
    );
    assert_eq!(batch[3], Patch { id: 7, data: PatchData::SetText { content: "6".to_string() } });
}

#[test]
fn noop_update_yields_empty_batch() {
    let (mut ctx, _) = Context::new(keyed_texts(&[0, 1, 2])).unwrap();
    let batch = ctx.update(keyed_texts(&[0, 1, 2])).unwrap();
    assert!(batch.is_empty());
}

#[test]
fn identity_stable_across_text_change() {
    let (mut ctx, first) = Context::new(keyed_texts(&[0, 1, 2])).unwrap();
    // the child keyed 1 got identity 3 in the initial batch
    assert_eq!(
        first[3],
        Patch { id: 3, data: PatchData::Add { parent_id: 1, kind: NodeKind::Text, index: 1 } }
    );
    let children = vec![(0u64, text("0")), (1u64, text("changed")), (2u64, text("2"))];
    let batch = ctx.update(div(Params::new(), children)).unwrap();
    assert_eq!(
        batch,
        vec![Patch { id: 3, data: PatchData::SetText { content: "changed".to_string() } }]
    );
}

#[test]
fn reorder_of_three_is_one_patch() {
    let (mut ctx, _) = Context::new(keyed_texts(&[0, 1, 2])).unwrap();
    let batch = ctx.update(keyed_texts(&[2, 0, 1])).unwrap();
    assert_eq!(batch.len(), 1);
    assert_eq!(
        batch[0],
        Patch {
            id: 1,
            data: PatchData::Reorder { parent_id: 1, pairs: vec![(0, 2), (1, 0), (2, 1)] },
        }
    );
}

#[test]
fn flag_lifecycle() {
    let tree = |v: bool| div(flag_params("hidden", v), Vec::new());
    let (mut ctx, first) = Context::new(tree(false)).unwrap();
    // a fresh false flag emits nothing beyond the Add record
    assert_eq!(first.len(), 1);
    assert!(matches!(first[0].data, PatchData::Add { .. }));
    let up = ctx.update(tree(true)).unwrap();
    assert_eq!(up, vec![Patch { id: 1, data: PatchData::SetFlag { key: "hidden".to_string() } }]);
    let down = ctx.update(tree(false)).unwrap();
    assert_eq!(
        down,
        vec![Patch { id: 1, data: PatchData::RemoveParam { key: "hidden".to_string() } }]
    );
}

#[test]
fn params_changed_touches_only_changed_keys() {
    let tree = |b: &str| {
        let mut p = Params::new();
        p.insert("class".to_string(), ParamValue::TextValue("box".to_string()));
        p.insert("title".to_string(), ParamValue::TextValue(b.to_string()));
        div(p, Vec::new())
    };
    let (mut ctx, _) = Context::new(tree("old")).unwrap();
    let batch = ctx.update(tree("new")).unwrap();
    assert_eq!(
        batch,
        vec![Patch {
            id: 1,
            data: PatchData::SetParam { key: "title".to_string(), value: "new".to_string() },
        }]
    );
}

#[test]
fn dropped_key_emits_remove_param() {
    let with_key = |yes: bool| {
        let mut p = Params::new();
        if yes {
            p.insert("title".to_string(), ParamValue::TextValue("t".to_string()));
        }
        div(p, Vec::new())
    };
    let (mut ctx, _) = Context::new(with_key(true)).unwrap();
    let batch = ctx.update(with_key(false)).unwrap();
    assert_eq!(
        batch,
        vec![Patch { id: 1, data: PatchData::RemoveParam { key: "title".to_string() } }]
    );
}

#[test]
fn replace_retires_old_identity_and_allocates_a_new_one() {
    let (mut ctx, _) = Context::new(text("leaf")).unwrap();
    let batch = ctx.update(div(Params::new(), Vec::new())).unwrap();
    assert_eq!(batch.len(), 2);
    assert_eq!(batch[0], Patch { id: 1, data: PatchData::Remove });
    assert_eq!(
        batch[1],
        Patch {
            id: 2,
            data: PatchData::Add {
                parent_id: 0,
                kind: NodeKind::Element(ElemTag::Div),
                index: 0,
            },
        }
    );
}

#[test]
fn widget_expands_before_diffing() {
    let widget = Node::Widget { body: Box::new(keyed_texts(&[0, 1])) };
    let (_, batch) = Context::new(widget).unwrap();
    assert_eq!(batch.len(), 5);
    assert!(matches!(
        batch[0].data,
        PatchData::Add { kind: NodeKind::Element(ElemTag::Div), .. }
    ));
}

#[test]
fn expand_widgets_is_deep_and_ignores_previous() {
    let nested = Node::Widget {
        body: Box::new(div(
            Params::new(),
            vec![(7u64, Node::Widget { body: Box::new(text("inner")) })],
        )),
    };
    let other = text("unrelated");
    let expanded = expand_widgets(&nested, Some(&other));
    match expanded {
        Node::Element { tag, children, .. } => {
            assert_eq!(tag, ElemTag::Div);
            assert_eq!(children.len(), 1);
            assert_eq!(children[0].0, 7);
            assert!(matches!(&children[0].1, Node::Text { content } if content == "inner"));
        }
        _ => panic!("expansion did not yield the element"),
    }
}

#[test]
fn dispose_is_idempotent() {
    let (mut ctx, _) = Context::new(text("x")).unwrap();
    assert!(ctx.dispose());
    assert!(!ctx.dispose());
}

#[test]
fn duplicate_sibling_keys_are_refused() {
    let tree = div(Params::new(), vec![(1u64, text("a")), (1u64, text("b"))]);
    match Context::new(tree) {
        Err(DiffError::DuplicatePath(p)) => assert_eq!(p, vec![1u64]),
        _ => panic!("expected a duplicate-path failure"),
    }
}

#[test]
fn lookup_failure_on_empty_states() {
    let states = NodeStates::new();
    match states.lookup(&vec![3u64]) {
        Err(DiffError::LookupFailure(p)) => assert_eq!(p, vec![3u64]),
        _ => panic!("expected a lookup failure"),
    }
}

#[test]
fn allocate_twice_is_a_duplicate_path() {
    let mut states = NodeStates::new();
    assert_eq!(states.allocate(&vec![2u64]), Ok(1));
    match states.allocate(&vec![2u64]) {
        Err(DiffError::DuplicatePath(p)) => assert_eq!(p, vec![2u64]),
        _ => panic!("expected a duplicate-path failure"),
    }
}

#[test]
fn retire_returns_and_removes_the_identity() {
    let mut states = NodeStates::new();
    assert_eq!(states.allocate(&vec![5u64]), Ok(1));
    assert_eq!(states.retire(&vec![5u64]), Ok(1));
    match states.retire(&vec![5u64]) {
        Err(DiffError::LookupFailure(p)) => assert_eq!(p, vec![5u64]),
        _ => panic!("expected a lookup failure"),
    }
}

#[test]
fn params_changed_between_kinds_is_unsupported() {
    let mut d = Differ::new(NodeStates::new());
    let path: Vec<u64> = Vec::new();
    match d.diff_params_changed(&path, &text("a"), &div(Params::new(), Vec::new())) {
        Err(DiffError::UnsupportedTransition(p)) => assert_eq!(p, Vec::<u64>::new()),
        _ => panic!("expected an unsupported transition"),
    }
}

#[test]
fn reorder_event_sorts_its_pairs() {
    let mut states = NodeStates::new();
    assert_eq!(states.allocate(&Vec::new()), Ok(1));
    let mut d = Differ::new(states);
    let path: Vec<u64> = Vec::new();
    d.diff_reordered(&path, &vec![(2usize, 0usize), (0, 1), (1, 2)]).unwrap();
    assert_eq!(
        d.diffs,
        vec![Patch {
            id: 1,
            data: PatchData::Reorder { parent_id: 1, pairs: vec![(0, 1), (1, 2), (2, 0)] },
        }]
    );
}

#[test]
fn empty_reorder_event_emits_nothing() {
    let mut d = Differ::new(NodeStates::new());
    let path: Vec<u64> = Vec::new();
    d.diff_reordered(&path, &Vec::new()).unwrap();
    assert!(d.diffs.is_empty());
}

#[test]
fn param_to_ffi_cases() {
    let set = param_to_ffi(9, &"k".to_string(), &ParamValue::TextValue("v".to_string()), false);
    assert_eq!(
        set,
        Some(Patch {
            id: 9,
            data: PatchData::SetParam { key: "k".to_string(), value: "v".to_string() },
        })
    );
    let flag_on = param_to_ffi(9, &"k".to_string(), &ParamValue::Flag(true), false);
    assert_eq!(flag_on, Some(Patch { id: 9, data: PatchData::SetFlag { key: "k".to_string() } }));
    let silent = param_to_ffi(9, &"k".to_string(), &ParamValue::Flag(false), false);
    assert_eq!(silent, None);
    let cleared = param_to_ffi(9, &"k".to_string(), &ParamValue::Flag(false), true);
    assert_eq!(
        cleared,
        Some(Patch { id: 9, data: PatchData::RemoveParam { key: "k".to_string() } })
    );
}

#[test]
fn params_to_ffi_keeps_list_order_and_drops_false_flags() {
    let mut p = Params::new();
    p.insert("a".to_string(), ParamValue::TextValue("1".to_string()));
    p.insert("b".to_string(), ParamValue::Flag(false));
    p.insert("c".to_string(), ParamValue::Flag(true));
    let batch = params_to_ffi(4, &p, false);
    assert_eq!(
        batch,
        vec![
            Patch {
                id: 4,
                data: PatchData::SetParam { key: "a".to_string(), value: "1".to_string() },
            },
            Patch { id: 4, data: PatchData::SetFlag { key: "c".to_string() } },
        ]
    );
}

#[test]
fn params_insert_replaces_in_place() {
    let mut p = Params::new();
    p.insert("a".to_string(), ParamValue::TextValue("1".to_string()));
    p.insert("b".to_string(), ParamValue::TextValue("2".to_string()));
    p.insert("a".to_string(), ParamValue::TextValue("3".to_string()));
    assert_eq!(p.params.len(), 2);
    assert!(matches!(&p.params[0].1, ParamValue::TextValue(v) if v == "3"));
    assert_eq!(p.find(&"b".to_string()), Some(1));
    assert_eq!(p.find(&"missing".to_string()), None);
}

#[test]
fn html_nodes_table() {
    let table = html_nodes_iter();
    let expected = vec![
        (0usize, "Div", "div"),
        (1, "Span", "span"),
        (2, "Ul", "ul"),
        (3, "Li", "li"),
    ];
    assert_eq!(table, expected);
}

#[test]
fn add_remove_balance_over_a_run() {
    let (mut ctx, first) = Context::new(keyed_texts(&[0, 1, 2, 3, 4])).unwrap();
    let second = ctx.update(keyed_texts(&[4, 0, 6, 1, 2])).unwrap();
    let third = ctx.update(keyed_texts(&[4])).unwrap();
    let count = |b: &Vec<Patch>, add: bool| {
        b.iter()
            .filter(|p| {
                if add {
                    matches!(p.data, PatchData::Add { .. })
                } else {
                    matches!(p.data, PatchData::Remove)
                }
            })
            .count() as i64
    };
    let adds = count(&first, true) + count(&second, true) + count(&third, true);
    let removes = count(&first, false) + count(&second, false) + count(&third, false);
    // live nodes now: the root element and the single surviving child
    assert_eq!(adds - removes, 2);
}

#[test]
fn nested_param_change_addresses_the_child() {
    let tree = |title: &str| {
        let mut p = Params::new();
        p.insert("title".to_string(), ParamValue::TextValue(title.to_string()));
        let inner = Node::Element { tag: ElemTag::Li, params: p, children: Vec::new() };
        Node::Element {
            tag: ElemTag::Ul,
            params: Params::new(),
            children: vec![(0u64, inner)],
        }
    };
    let (mut ctx, first) = Context::new(tree("a")).unwrap();
    // root got identity 1, the list item identity 2
    assert_eq!(first.len(), 3);
    let batch = ctx.update(tree("b")).unwrap();
    assert_eq!(
        batch,
        vec![Patch {
            id: 2,
            data: PatchData::SetParam { key: "title".to_string(), value: "b".to_string() },
        }]
    );
}

#[test]
fn deep_replace_keeps_sibling_identities() {
    let tree = |mid: Node| {
        div(
            Params::new(),
            vec![(0u64, text("left")), (1u64, mid), (2u64, text("right"))],
        )
    };
    let (mut ctx, _) = Context::new(tree(text("middle"))).unwrap();
    // ids: root 1, children 2, 3, 4
    let span = Node::Element { tag: ElemTag::Span, params: Params::new(), children: Vec::new() };
    let batch = ctx.update(tree(span)).unwrap();
    assert_eq!(batch.len(), 2);
    assert_eq!(batch[0], Patch { id: 3, data: PatchData::Remove });
    assert_eq!(
        batch[1],
        Patch {
            id: 5,
            data: PatchData::Add {
                parent_id: 1,
                kind: NodeKind::Element(ElemTag::Span),
                index: 1,
            },
        }
    );
    // the untouched siblings keep their identities: changing one later
    // addresses the original id
    let tree2 = div(
        Params::new(),
        vec![
            (0u64, text("left")),
            (1u64, Node::Element { tag: ElemTag::Span, params: Params::new(), children: Vec::new() }),
            (2u64, text("edited")),
        ],
    );
    let batch2 = ctx.update(tree2).unwrap();
    assert_eq!(
        batch2,
        vec![Patch { id: 4, data: PatchData::SetText { content: "edited".to_string() } }]
    );
}

#[test]
fn removal_is_post_order() {
    let inner = div(Params::new(), vec![(0u64, text("leaf"))]);
    let (mut ctx, _) = Context::new(div(Params::new(), vec![(7u64, inner)])).unwrap();
    // ids: root 1, inner element 2, leaf 3
    let batch = ctx.update(div(Params::new(), Vec::new())).unwrap();
    assert_eq!(
        batch,
        vec![
            Patch { id: 3, data: PatchData::Remove },
            Patch { id: 2, data: PatchData::Remove },
        ]
    );
}
