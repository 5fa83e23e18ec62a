use ornament::decorations::Decorations;

#[derive(Clone, Debug, PartialEq)]
enum Face {
    Default,
    Error,
    Strong,
    Star,
    Pipe,
}

/// A face that is never equal to anything, itself included.
#[derive(Clone, Debug)]
struct Aloof(u8);

impl PartialEq for Aloof {
    fn eq(&self, _other: &Aloof) -> bool {
        false
    }
}

fn tree_of(len: usize) -> Decorations<Face> {
    let mut tree = Decorations::new(Face::Default);
    tree.append(Face::Default, len);
    tree
}

#[test]
fn new_tree_is_empty() {
    let tree = Decorations::new(Face::Default);
    assert_eq!(tree.len(), 0);
    assert_eq!(tree.flatten(), Vec::new());
    assert_eq!(tree.fragment_index_of(0), None);
}

#[test]
fn append_path_flattens_to_three_runs() {
    let mut tree = Decorations::new(Face::Default);
    tree.append(Face::Default, 5);
    tree.append(Face::Error, 5);
    tree.append(Face::Default, 14);
    assert_eq!(
        tree.flatten(),
        vec![(Face::Default, 5), (Face::Error, 5), (Face::Default, 14)]
    );
    assert_eq!(tree.len(), 24);
}

#[test]
fn set_path_flattens_to_three_runs() {
    let mut tree = tree_of(23);
    tree.set(Face::Strong, 5..9);
    assert_eq!(
        tree.flatten(),
        vec![(Face::Default, 5), (Face::Strong, 4), (Face::Default, 14)]
    );
    assert_eq!(tree.len(), 23);
}

#[test]
fn nested_split_flattens_to_five_runs() {
    let mut tree = Decorations::new(Face::Default);
    tree.append(Face::Default, 5);
    tree.append(Face::Star, 6);
    tree.append(Face::Pipe, 4);
    tree.append(Face::Star, 6);
    tree.append(Face::Default, 14);
    assert_eq!(
        tree.flatten(),
        vec![
            (Face::Default, 5),
            (Face::Star, 6),
            (Face::Pipe, 4),
            (Face::Star, 6),
            (Face::Default, 14),
        ]
    );
}

#[test]
fn length_is_the_sum_of_what_was_appended() {
    let mut tree = Decorations::new(Face::Default);
    tree.append(Face::Default, 3);
    tree.append(Face::Star, 4);
    tree.set(Face::Pipe, 2..6);
    tree.append(Face::Star, 5);
    tree.set(Face::Error, 0..12);
    tree.append(Face::Default, 0);
    assert_eq!(tree.len(), 12);
    let total: usize = tree.flatten().iter().map(|run| run.1).sum();
    assert_eq!(total, 12);
}

#[test]
fn appending_twice_is_appending_once() {
    let mut twice = tree_of(4);
    twice.append(Face::Star, 2);
    twice.append(Face::Star, 3);
    let mut once = tree_of(4);
    once.append(Face::Star, 5);
    assert_eq!(twice.flatten(), once.flatten());
    assert_eq!(twice.flatten(), vec![(Face::Default, 4), (Face::Star, 5)]);
}

#[test]
fn appending_a_face_that_is_not_equal_to_itself_does_not_merge() {
    let mut tree = Decorations::new(Aloof(0));
    tree.append(Aloof(1), 2);
    tree.append(Aloof(1), 3);
    let lengths: Vec<usize> = tree.flatten().iter().map(|run| run.1).collect();
    assert_eq!(lengths, vec![2, 3]);
}

#[test]
fn appending_nothing_keeps_the_length() {
    let mut tree = tree_of(4);
    tree.append(Face::Star, 0);
    assert_eq!(tree.len(), 4);
    assert_eq!(tree.flatten(), vec![(Face::Default, 4), (Face::Star, 0)]);
}

#[test]
fn offsets_resolve_to_the_first_run_that_reaches_them() {
    let mut tree = Decorations::new(Face::Default);
    tree.append(Face::Default, 5);
    tree.append(Face::Star, 5);
    tree.append(Face::Default, 14);
    assert_eq!(tree.fragment_index_of(0), Some((0, 0)));
    assert_eq!(tree.fragment_index_of(4), Some((0, 0)));
    assert_eq!(tree.fragment_index_of(5), Some((0, 0)));
    assert_eq!(tree.fragment_index_of(6), Some((1, 5)));
    assert_eq!(tree.fragment_index_of(10), Some((1, 5)));
    assert_eq!(tree.fragment_index_of(11), Some((2, 10)));
    assert_eq!(tree.fragment_index_of(24), Some((2, 10)));
    assert_eq!(tree.fragment_index_of(25), None);
}

#[test]
fn set_of_an_empty_range_leaves_the_tree() {
    let mut tree = tree_of(10);
    tree.set(Face::Star, 3..3);
    assert_eq!(tree.flatten(), vec![(Face::Default, 10)]);
    tree.set(Face::Star, 0..0);
    tree.set(Face::Star, 10..10);
    tree.set(Face::Star, 7..2);
    assert_eq!(tree.flatten(), vec![(Face::Default, 10)]);
}

#[test]
fn set_at_the_start() {
    let mut tree = tree_of(10);
    tree.set(Face::Star, 0..4);
    assert_eq!(tree.flatten(), vec![(Face::Star, 4), (Face::Default, 6)]);
}

#[test]
fn set_at_the_end() {
    let mut tree = tree_of(10);
    tree.set(Face::Star, 6..10);
    assert_eq!(tree.flatten(), vec![(Face::Default, 6), (Face::Star, 4)]);
}

#[test]
fn set_of_the_whole_tree() {
    let mut tree = tree_of(10);
    tree.set(Face::Star, 0..10);
    assert_eq!(tree.flatten(), vec![(Face::Star, 10)]);
}

#[test]
fn set_on_run_boundaries() {
    let mut tree = Decorations::new(Face::Default);
    tree.append(Face::Default, 5);
    tree.append(Face::Star, 5);
    tree.append(Face::Default, 5);
    tree.set(Face::Pipe, 5..10);
    assert_eq!(
        tree.flatten(),
        vec![(Face::Default, 5), (Face::Pipe, 5), (Face::Default, 5)]
    );
}

#[test]
fn set_across_a_run_boundary() {
    let mut tree = Decorations::new(Face::Default);
    tree.append(Face::Default, 5);
    tree.append(Face::Star, 5);
    tree.append(Face::Default, 5);
    tree.set(Face::Pipe, 3..7);
    assert_eq!(
        tree.flatten(),
        vec![
            (Face::Default, 3),
            (Face::Pipe, 4),
            (Face::Star, 3),
            (Face::Default, 5),
        ]
    );
}

#[test]
fn set_inside_a_nested_run_counts_from_the_start_of_the_buffer() {
    let mut tree = Decorations::new(Face::Default);
    tree.append(Face::Default, 5);
    tree.append(Face::Star, 10);
    tree.set(Face::Pipe, 7..9);
    assert_eq!(
        tree.flatten(),
        vec![
            (Face::Default, 5),
            (Face::Star, 2),
            (Face::Pipe, 2),
            (Face::Star, 6),
        ]
    );
}

#[test]
fn set_twice_flattens_as_set_once() {
    let mut once = tree_of(24);
    once.set(Face::Star, 5..10);
    let mut twice = tree_of(24);
    twice.set(Face::Star, 5..10);
    twice.set(Face::Star, 5..10);
    assert_eq!(once.flatten(), twice.flatten());
    let mut once = tree_of(24);
    once.set(Face::Star, 0..10);
    let mut twice = tree_of(24);
    twice.set(Face::Star, 0..10);
    twice.set(Face::Star, 0..10);
    assert_eq!(once.flatten(), twice.flatten());
}

#[test]
fn set_leaves_one_run_over_the_range() {
    let mut tree = Decorations::new(Face::Default);
    tree.append(Face::Default, 4);
    tree.append(Face::Star, 4);
    tree.append(Face::Pipe, 4);
    tree.append(Face::Default, 4);
    tree.set(Face::Error, 2..14);
    assert_eq!(
        tree.flatten(),
        vec![(Face::Default, 2), (Face::Error, 12), (Face::Default, 2)]
    );
}

#[test]
fn set_does_not_merge_with_its_neighbours() {
    let mut tree = tree_of(10);
    tree.set(Face::Star, 2..5);
    tree.set(Face::Star, 5..8);
    assert_eq!(
        tree.flatten(),
        vec![
            (Face::Default, 2),
            (Face::Star, 3),
            (Face::Star, 3),
            (Face::Default, 2),
        ]
    );
}

#[test]
fn append_after_set_goes_into_the_override_of_its_face() {
    let mut tree = tree_of(10);
    tree.set(Face::Star, 5..10);
    tree.append(Face::Star, 3);
    assert_eq!(tree.flatten(), vec![(Face::Default, 5), (Face::Star, 8)]);
}
