use binding_env::env::{Env, EnvError};
use binding_env::value::Value;

#[test]
fn value_ownership_queries() {
    let owned = Value::Owned(7);
    let reference = Value::Reference(7);
    assert!(owned.is_owned());
    assert!(!owned.is_ref());
    assert!(!reference.is_owned());
    assert!(reference.is_ref());
    assert_eq!(owned.payload(), 7);
    assert_eq!(reference.payload(), 7);
}

#[test]
fn value_free_reports_the_owned_block() {
    let owned = Value::Owned(41);
    assert_eq!(owned.free(), 41);
}

#[test]
fn distinct_defines_then_get_each() {
    let mut env = Env::new();
    assert_eq!(env.define("a".to_string(), Value::Owned(1)), Ok(None));
    assert_eq!(env.define("b".to_string(), Value::Reference(2)), Ok(None));
    assert_eq!(env.define("c".to_string(), Value::Owned(3)), Ok(None));
    assert_eq!(env.get(&"a".to_string()), Ok(Value::Owned(1)));
    assert_eq!(env.get(&"b".to_string()), Ok(Value::Reference(2)));
    assert_eq!(env.get(&"c".to_string()), Ok(Value::Owned(3)));
}

#[test]
fn rebind_returns_second_value_never_first() {
    let mut env = Env::new();
    assert_eq!(env.define("n".to_string(), Value::Reference(10)), Ok(None));
    assert_eq!(env.define("n".to_string(), Value::Reference(20)), Ok(None));
    let got = env.get(&"n".to_string());
    assert_eq!(got, Ok(Value::Reference(20)));
    assert_ne!(got, Ok(Value::Reference(10)));
}

#[test]
fn teardown_of_references_frees_nothing() {
    let mut env = Env::new();
    env.define("p".to_string(), Value::Reference(100)).unwrap();
    env.define("q".to_string(), Value::Reference(200)).unwrap();
    let freed = env.free().unwrap();
    assert_eq!(freed, Vec::<u64>::new());
}

#[test]
fn teardown_of_owned_frees_each_exactly_once() {
    let mut env = Env::new();
    env.define("p".to_string(), Value::Owned(100)).unwrap();
    env.define("q".to_string(), Value::Owned(200)).unwrap();
    env.define("r".to_string(), Value::Owned(300)).unwrap();
    let freed = env.free().unwrap();
    assert_eq!(freed, vec![100, 200, 300]);
    // A second teardown finds the scope consumed and frees nothing.
    assert_eq!(env.free(), Err(EnvError::UseAfterTeardown));
}

#[test]
fn get_of_unbound_name_is_binding_not_found() {
    let mut env = Env::new();
    env.define("bound".to_string(), Value::Owned(1)).unwrap();
    assert_eq!(
        env.get(&"unbound".to_string()),
        Err(EnvError::BindingNotFound { name: "unbound".to_string() })
    );
}

#[test]
fn get_on_empty_environment_is_binding_not_found() {
    let env = Env::new();
    assert_eq!(
        env.get(&"anything".to_string()),
        Err(EnvError::BindingNotFound { name: "anything".to_string() })
    );
}

#[test]
fn teardown_frees_owned_block_and_skips_referenced_block() {
    // Block B is owned by another scope; this scope only references it.
    let mut other_scope = Env::new();
    let block_a: u64 = 0xA;
    let block_b: u64 = 0xB;
    other_scope.define("origin".to_string(), Value::Owned(block_b)).unwrap();

    let mut env = Env::new();
    env.define("x".to_string(), Value::Owned(block_a)).unwrap();
    env.define("y".to_string(), Value::Reference(block_b)).unwrap();
    let freed = env.free().unwrap();
    assert_eq!(freed, vec![block_a]);
    assert!(!freed.contains(&block_b));

    // Block B is still live in its owning scope, its content unchanged.
    let still_there = other_scope.get(&"origin".to_string()).unwrap();
    assert_eq!(still_there, Value::Owned(block_b));
    assert_eq!(other_scope.free().unwrap(), vec![block_b]);
}

#[test]
fn rebind_of_owned_frees_displaced_block_at_rebind_time() {
    let block_a: u64 = 1;
    let block_c: u64 = 2;
    let mut env = Env::new();
    assert_eq!(env.define("x".to_string(), Value::Owned(block_a)), Ok(None));
    // The displaced owned block is freed on the spot, never leaked.
    assert_eq!(env.define("x".to_string(), Value::Owned(block_c)), Ok(Some(block_a)));
    assert_eq!(env.get(&"x".to_string()), Ok(Value::Owned(block_c)));
    // Teardown then frees only the surviving block, so A is freed once in all.
    assert_eq!(env.free().unwrap(), vec![block_c]);
}

#[test]
fn rebind_of_reference_frees_nothing() {
    let mut env = Env::new();
    assert_eq!(env.define("x".to_string(), Value::Reference(5)), Ok(None));
    assert_eq!(env.define("x".to_string(), Value::Owned(6)), Ok(None));
    assert_eq!(env.free().unwrap(), vec![6]);
}

#[test]
fn operations_after_teardown_fail() {
    let mut env = Env::new();
    env.define("x".to_string(), Value::Owned(1)).unwrap();
    env.free().unwrap();
    assert_eq!(env.get(&"x".to_string()), Err(EnvError::UseAfterTeardown));
    assert_eq!(
        env.define("y".to_string(), Value::Owned(2)),
        Err(EnvError::UseAfterTeardown)
    );
    assert_eq!(env.free(), Err(EnvError::UseAfterTeardown));
}

#[test]
fn teardown_of_empty_environment_frees_nothing() {
    let mut env = Env::new();
    assert_eq!(env.free().unwrap(), Vec::<u64>::new());
}

#[test]
fn teardown_order_follows_definition_order() {
    let mut env = Env::new();
    env.define("late".to_string(), Value::Owned(30)).unwrap();
    env.define("early".to_string(), Value::Owned(10)).unwrap();
    env.define("skip".to_string(), Value::Reference(99)).unwrap();
    env.define("mid".to_string(), Value::Owned(20)).unwrap();
    assert_eq!(env.free().unwrap(), vec![30, 10, 20]);
}
