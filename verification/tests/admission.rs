use loadgen::admission::{Admission, AdmissionController, TokenPool};

#[test]
fn a_pool_hands_out_each_token_once() {
    let mut pool = TokenPool::new(3);
    assert_eq!(pool.in_flight(), 0);
    let mut tokens = Vec::new();
    for _ in 0..3 {
        tokens.push(pool.acquire().unwrap());
    }
    tokens.sort();
    assert_eq!(tokens, vec![0, 1, 2]);
    assert_eq!(pool.in_flight(), 3);
    assert_eq!(pool.acquire(), None);
    assert_eq!(pool.in_flight(), 3);
}

#[test]
fn a_token_comes_back_exactly_once() {
    let mut pool = TokenPool::new(2);
    let token = pool.acquire().unwrap();
    assert!(pool.release(token));
    assert!(!pool.release(token));
    assert_eq!(pool.in_flight(), 0);
    // a token that the pool does not have is not taken
    assert!(!pool.release(2));
    assert!(!pool.release(usize::MAX));
    assert_eq!(pool.in_flight(), 0);
    // and both tokens can still be had, and no third
    assert!(pool.acquire().is_some());
    assert!(pool.acquire().is_some());
    assert!(pool.acquire().is_none());
}

#[test]
fn a_token_that_was_never_out_is_not_taken() {
    let mut pool = TokenPool::new(2);
    assert!(!pool.release(0));
    assert!(!pool.release(1));
    assert_eq!(pool.in_flight(), 0);
}

#[test]
fn an_empty_pool_lets_nothing_through() {
    let mut pool = TokenPool::new(0);
    assert_eq!(pool.acquire(), None);
    assert_eq!(pool.in_flight(), 0);
}

#[test]
fn never_more_requests_under_way_than_users() {
    let users = 4usize;
    let mut controller = AdmissionController::closed_loop(users);
    let mut held: Vec<usize> = Vec::new();
    let mut state = 99u64;
    for _ in 0..10_000 {
        state = state.wrapping_mul(6364136223846793005).wrapping_add(1442695040888963407);
        if (state >> 33) % 3 != 0 {
            match controller.enter() {
                Admission::Granted { token } => {
                    assert!(token < users);
                    assert!(!held.contains(&token));
                    held.push(token);
                }
                Admission::Wait => assert_eq!(held.len(), users),
                Admission::Open => panic!("a closed loop has tokens"),
            }
        } else if !held.is_empty() {
            let token = held.remove((state >> 40) as usize % held.len());
            assert!(controller.complete(token));
        }
        assert!(held.len() <= users);
    }
}

#[test]
fn an_open_loop_lets_everything_through() {
    let mut controller = AdmissionController::open_loop();
    for _ in 0..100 {
        assert_eq!(controller.enter(), Admission::Open);
    }
    assert!(!controller.complete(0));
}

#[test]
fn a_closed_loop_waits_when_all_users_are_busy() {
    let mut controller = AdmissionController::closed_loop(1);
    let token = match controller.enter() {
        Admission::Granted { token } => token,
        other => panic!("{:?}", other),
    };
    assert_eq!(token, 0);
    assert_eq!(controller.enter(), Admission::Wait);
    assert!(controller.complete(token));
    assert_eq!(controller.enter(), Admission::Granted { token: 0 });
    assert!(!controller.complete(1));
}
