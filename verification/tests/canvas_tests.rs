use animator::canvas_tree::{CanvasGroup, FlatElement, FlattenError};
use animator::id_index::{find_id, index_by_id, same_id_set, DuplicateInterpId};
use animator::ids::InterpId;

fn summary(v: &[FlatElement<&'static str>]) -> Vec<(&'static str, Option<(i64, Vec<usize>)>)> {
    v.iter()
        .map(|f| {
            (
                f.element,
                f.interp_id
                    .as_ref()
                    .map(|i| (i.id, i.draw_order_idx.clone())),
            )
        })
        .collect()
}

#[test]
fn flatten_top_level_keeps_own_ids() {
    let mut g = CanvasGroup::new();
    g.push_item("a");
    g.push_item("b").interp_id(4);
    let flat = g.flatten().ok().unwrap();
    assert_eq!(summary(&flat), vec![("a", None), ("b", Some((4, vec![])))]);
}

#[test]
fn flatten_group_id_is_inherited_with_positions() {
    let mut g = CanvasGroup::new();
    g.push_item("a");
    {
        let inner = g.push_group().interp_id(1);
        inner.push_item("b");
        inner.push_item("c");
    }
    g.push_item("d");
    let flat = g.flatten().ok().unwrap();
    assert_eq!(
        summary(&flat),
        vec![
            ("a", None),
            ("b", Some((1, vec![0]))),
            ("c", Some((1, vec![1]))),
            ("d", None)
        ]
    );
}

#[test]
fn flatten_nested_paths_outermost_first() {
    let mut g = CanvasGroup::new();
    {
        let outer = g.push_group();
        outer.push_item("x");
        let inner = outer.push_group();
        inner.push_item("y");
        inner.push_item("z").interp_id(9);
    }
    let flat = g.flatten().ok().unwrap();
    assert_eq!(
        summary(&flat),
        vec![("x", None), ("y", None), ("z", Some((9, vec![2, 1])))]
    );
}

#[test]
fn flatten_top_level_id_is_ignored() {
    let mut g = CanvasGroup::new();
    g.interp_id(5);
    g.push_item("a").interp_id(6);
    let flat = g.flatten().ok().unwrap();
    assert_eq!(summary(&flat), vec![("a", Some((6, vec![])))]);
}

#[test]
fn flatten_element_id_inside_group_id_fails() {
    let mut g = CanvasGroup::new();
    {
        let inner = g.push_group().interp_id(2);
        inner.push_item("a");
        inner.push_item("b").interp_id(3);
    }
    match g.flatten() {
        Err(e) => assert_eq!(
            e,
            FlattenError::MultipleInterpIds { element_id: 3, group_id: 2 }
        ),
        Ok(_) => panic!("expected an error"),
    }
}

#[test]
fn flatten_group_id_inside_group_id_fails() {
    let mut g = CanvasGroup::new();
    {
        let outer = g.push_group().interp_id(2);
        let inner = outer.push_group().interp_id(8);
        inner.push_item("a");
    }
    match g.flatten() {
        Err(e) => assert_eq!(
            e,
            FlattenError::MultipleInterpIds { element_id: 8, group_id: 2 }
        ),
        Ok(_) => panic!("expected an error"),
    }
}

#[test]
fn flatten_empty_inner_group_with_id_is_fine() {
    let mut g = CanvasGroup::<&'static str>::new();
    {
        let outer = g.push_group().interp_id(2);
        outer.push_group().interp_id(8);
    }
    assert_eq!(g.flatten().ok().unwrap().len(), 0);
}

fn path_id(n: i64, path: &[usize]) -> InterpId {
    let mut i = InterpId::new(n);
    for p in path {
        i.draw_order_idx.push(*p);
    }
    i
}

#[test]
fn index_by_id_lists_elements_with_ids() {
    let ids = vec![None, Some(InterpId::new(1)), None, Some(path_id(1, &[0]))];
    assert_eq!(index_by_id(&ids), Ok(vec![1, 3]));
}

#[test]
fn index_by_id_reports_first_duplicate() {
    let ids = vec![
        Some(InterpId::new(1)),
        Some(InterpId::new(2)),
        Some(InterpId::new(2)),
        Some(InterpId::new(1)),
    ];
    assert_eq!(
        index_by_id(&ids),
        Err(DuplicateInterpId { first: 1, second: 2 })
    );
}

#[test]
fn find_id_finds_first() {
    let ids = vec![None, Some(path_id(4, &[2])), Some(InterpId::new(4))];
    assert_eq!(find_id(&ids, &InterpId::new(4)), Some(2));
    assert_eq!(find_id(&ids, &path_id(4, &[2])), Some(1));
    assert_eq!(find_id(&ids, &InterpId::new(5)), None);
}

#[test]
fn same_id_set_ignores_order() {
    let a = vec![InterpId::new(1), path_id(2, &[0])];
    let b = vec![path_id(2, &[0]), InterpId::new(1)];
    let c = vec![InterpId::new(1), path_id(2, &[1])];
    assert!(same_id_set(&a, &b));
    assert!(!same_id_set(&a, &c));
    assert!(!same_id_set(&a, &vec![InterpId::new(1)]));
}

#[test]
fn interp_id_equality_and_copy() {
    let a = path_id(3, &[1, 2]);
    let b = a.duplicate();
    assert!(a.same_as(&b));
    assert_eq!(b.id, 3);
    assert_eq!(b.draw_order_idx, vec![1, 2]);
    assert!(!a.same_as(&path_id(3, &[1])));
    assert!(!a.same_as(&path_id(4, &[1, 2])));
}
