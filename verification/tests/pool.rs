use hydra_math::pool::{Pool, INITIAL_POOL_DATA};

#[test]
fn initialise_sets_the_pool_data() {
    let mut pool = Pool { data: 7 };
    pool.initialise();
    assert_eq!(pool.data, 42);
    assert_eq!(INITIAL_POOL_DATA, 42);
}
