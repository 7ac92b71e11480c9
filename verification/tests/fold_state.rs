use air_core::fold::FoldPhase;
use air_core::fold::FoldStack;
use air_core::fold::FoldState;

#[test]
fn fold_iterates_until_its_bound() {
    let mut fold = FoldState::enter(7, 3, 0, 5);
    assert_eq!(fold.phase, FoldPhase::Iterating);
    assert_eq!(fold.index, 0);
    assert!(fold.is_iterating());
    fold.advance();
    assert_eq!((fold.index, fold.phase), (1, FoldPhase::Iterating));
    fold.advance();
    assert_eq!((fold.index, fold.phase), (2, FoldPhase::Iterating));
    fold.advance();
    assert_eq!((fold.index, fold.phase), (3, FoldPhase::Finished));
    assert!(!fold.is_iterating());
    fold.advance();
    assert_eq!((fold.index, fold.phase), (3, FoldPhase::Finished));
    assert_eq!((fold.node, fold.bound, fold.marker), (7, 3, 5));
}

#[test]
fn fold_entered_at_the_recorded_count() {
    let fold = FoldState::enter(1, 5, 2, 0);
    assert_eq!((fold.index, fold.phase), (2, FoldPhase::Iterating));
    let fold = FoldState::enter(1, 5, 5, 0);
    assert_eq!((fold.index, fold.phase), (5, FoldPhase::Finished));
    let fold = FoldState::enter(1, 0, 0, 0);
    assert_eq!((fold.index, fold.phase), (0, FoldPhase::Finished));
}

#[test]
fn fold_aborts_only_while_iterating() {
    let mut fold = FoldState::enter(1, 2, 0, 0);
    fold.advance();
    fold.abort();
    assert_eq!((fold.index, fold.phase), (1, FoldPhase::Aborted));
    fold.advance();
    assert_eq!((fold.index, fold.phase), (1, FoldPhase::Aborted));
    let mut done = FoldState::enter(1, 2, 2, 0);
    done.abort();
    assert_eq!(done.phase, FoldPhase::Finished);
}

#[test]
fn fold_stack_gives_the_scope() {
    let mut stack = FoldStack::new();
    assert_eq!(stack.depth(), 0);
    assert_eq!(stack.scope(), Vec::<u32>::new());
    assert_eq!(stack.top(), None);
    assert_eq!(stack.pop(), None);
    stack.push(FoldState::enter(1, 4, 2, 0));
    stack.push(FoldState::enter(2, 9, 0, 3));
    assert_eq!(stack.depth(), 2);
    assert_eq!(stack.scope(), vec![2, 0]);
    let mut inner = stack.top().unwrap();
    inner.advance();
    stack.replace_top(inner);
    assert_eq!(stack.scope(), vec![2, 1]);
    assert_eq!(stack.pop(), Some(inner));
    assert_eq!(stack.scope(), vec![2]);
    assert_eq!(stack.depth(), 1);
}

#[test]
fn fold_starts_only_once_and_only_within_its_bound() {
    let mut fold = FoldState::new(4, 3, 9);
    assert_eq!((fold.index, fold.phase), (0, FoldPhase::NotStarted));
    assert!(!fold.is_iterating());
    fold.advance();
    fold.abort();
    assert_eq!((fold.index, fold.phase), (0, FoldPhase::NotStarted));
    fold.start(4);
    assert_eq!((fold.index, fold.phase), (0, FoldPhase::NotStarted));
    fold.start(2);
    assert_eq!((fold.index, fold.phase), (2, FoldPhase::Iterating));
    fold.start(0);
    assert_eq!((fold.index, fold.phase), (2, FoldPhase::Iterating));
    assert_eq!(FoldState::enter(1, 2, 3, 0).phase, FoldPhase::NotStarted);
}
