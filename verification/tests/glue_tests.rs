use animator::glue::{glue_tracks, GlueError};
use animator::ids::{InterpId, TemporalInterpId};

fn id(n: i64) -> Option<InterpId> {
    Some(InterpId::new(n))
}

fn elem(from: Option<InterpId>, to: Option<InterpId>) -> TemporalInterpId {
    TemporalInterpId { from, to }
}

#[test]
fn glue_no_slides_gives_no_tracks() {
    let slides: Vec<Vec<TemporalInterpId>> = vec![];
    assert_eq!(glue_tracks(&slides), Ok(vec![]));
}

#[test]
fn glue_single_slide_gives_one_track_per_element() {
    let slides = vec![vec![elem(None, None), elem(id(1), id(1))]];
    assert_eq!(glue_tracks(&slides), Ok(vec![vec![Some(0)], vec![Some(1)]]));
}

#[test]
fn glue_matching_ids_join_one_track() {
    // slide 0: A (to 7), B (no id); slide 1: C (from 7), D (no id)
    let slides = vec![
        vec![elem(None, id(7)), elem(None, None)],
        vec![elem(id(7), None), elem(None, None)],
    ];
    // B closes first; then the open tracks: D (new) before A-C (continued)
    assert_eq!(
        glue_tracks(&slides),
        Ok(vec![vec![Some(1), None], vec![None, Some(1)], vec![Some(0), Some(0)]])
    );
}

#[test]
fn glue_chain_over_three_slides() {
    let slides = vec![
        vec![elem(id(1), id(1))],
        vec![elem(id(1), id(1))],
        vec![elem(id(1), id(1))],
    ];
    assert_eq!(glue_tracks(&slides), Ok(vec![vec![Some(0), Some(0), Some(0)]]));
}

#[test]
fn glue_gap_in_presence_splits_tracks() {
    let slides = vec![
        vec![elem(id(1), id(1))],
        vec![],
        vec![elem(id(1), id(1))],
    ];
    assert_eq!(
        glue_tracks(&slides),
        Ok(vec![vec![Some(0), None, None], vec![None, None, Some(0)]])
    );
}

#[test]
fn glue_draw_order_path_must_match_too() {
    let mut a = InterpId::new(3);
    a.draw_order_idx.push(0);
    let mut b = InterpId::new(3);
    b.draw_order_idx.push(1);
    let slides = vec![vec![elem(None, Some(a))], vec![elem(Some(b), None)]];
    assert_eq!(
        glue_tracks(&slides),
        Ok(vec![vec![Some(0), None], vec![None, Some(0)]])
    );
}

#[test]
fn glue_element_matching_two_fails() {
    let slides = vec![
        vec![elem(None, id(5)), elem(None, id(5))],
        vec![elem(id(5), None)],
    ];
    assert_eq!(glue_tracks(&slides), Err(GlueError::TooManyMatches));
}

#[test]
fn glue_track_matching_two_fails() {
    let slides = vec![
        vec![elem(None, id(5))],
        vec![elem(id(5), None), elem(id(5), None)],
    ];
    assert_eq!(glue_tracks(&slides), Err(GlueError::TooManyMatches));
}

#[test]
fn glue_same_id_on_one_slide_without_neighbour_is_fine() {
    let slides = vec![vec![elem(id(5), id(5)), elem(id(5), id(5))]];
    assert_eq!(glue_tracks(&slides), Ok(vec![vec![Some(0)], vec![Some(1)]]));
}
