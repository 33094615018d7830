use everytree::layout::View;
use everytree::model::Id;
use everytree::navigation::{History, Visit};

fn visit(parent: Id, start: usize, selected: Option<Id>) -> Visit {
    Visit {
        view: View {
            parent,
            start,
            end: start + 10,
        },
        selected,
    }
}

#[test]
fn round_trip_restores_folder_group_and_selection() {
    let root = visit(0, 0, None);
    let folder = visit(12, 0, Some(15));
    let group = visit(12, 30, Some(47));
    let mut history = History::default();
    history.record(root);
    history.record(folder);
    assert_eq!(history.back(group), Some(folder));
    assert_eq!(history.back(folder), Some(root));
    assert_eq!(history.back(root), None);
    assert_eq!(history.forward(root), Some(folder));
    assert_eq!(history.forward(folder), Some(group));
    assert_eq!(history.forward(group), None);
}

#[test]
fn taking_a_new_route_discards_the_old_forward_branch() {
    let a = visit(1, 0, None);
    let b = visit(2, 0, None);
    let c = visit(3, 0, None);
    let mut history = History::default();
    history.record(a);
    assert_eq!(history.back(b), Some(a));
    assert!(history.can_forward());
    history.record(a); // Navigate from a to c instead of returning to b.
    assert!(!history.can_forward());
    assert_eq!(history.back(c), Some(a));
    assert_eq!(history.forward(a), Some(c));
}

#[test]
fn an_empty_history_goes_nowhere() {
    let mut history = History::default();
    let here = visit(5, 0, None);
    assert!(!history.can_back());
    assert!(!history.can_forward());
    assert_eq!(history.back(here), None);
    assert_eq!(history.forward(here), None);
    history.record(here);
    assert!(history.can_back());
}
