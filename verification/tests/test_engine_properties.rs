//! Engine-level properties: branch precedence, loop bounding, out-of-range
//! targets, budget exhaustion, and the shared semantics of the two context
//! variants.

use modulink_rs::chains::{ChainGeneric, RunOutcome};
use modulink_rs::context::{Context, ContextMutable, Value};
use modulink_rs::middleware::{Middleware, LoggingMiddleware};
use std::sync::{Arc, Mutex};

type Link = Box<dyn Fn(Context) -> Context>;
type Cond = Box<dyn Fn(&Context) -> bool>;
type Chain = ChainGeneric<Context, Link, Cond, LoggingMiddleware>;
type LinkMut = Box<dyn Fn(ContextMutable) -> ContextMutable>;
type CondMut = Box<dyn Fn(&ContextMutable) -> bool>;
type ChainMut = ChainGeneric<ContextMutable, LinkMut, CondMut, LoggingMiddleware>;

fn set_flag(key: &'static str) -> Link {
    Box::new(move |ctx: Context| ctx.insert(key, Value::Bool(true)))
}

#[test]
fn test_first_registered_branch_wins() {
    let mut chain = Chain::new();
    chain.add_link(Box::new(|ctx: Context| ctx));
    chain.add_link(set_flag("hit1"));
    chain.add_link(set_flag("hit2"));
    chain.connect(0, 2, Box::new(|_ctx: &Context| true));
    chain.connect(0, 1, Box::new(|_ctx: &Context| true));
    let result = chain.run(Context::new(), 100).into_context();
    assert_eq!(result.get_bool("hit2"), Some(true));
    assert_eq!(result.get_bool("hit1"), None);
}

#[test]
fn test_loop_needs_external_bound() {
    let mut chain = Chain::new();
    chain.add_link(Box::new(|ctx: Context| ctx));
    chain.add_link(Box::new(|ctx: Context| ctx));
    chain.connect(1, 0, Box::new(|_ctx: &Context| true));
    let outcome = chain.run(Context::new(), 25);
    assert!(!outcome.is_completed());
    assert!(matches!(outcome, RunOutcome::Exhausted(_)));
}

#[test]
fn test_branch_target_past_end_stops_run() {
    let mut chain = Chain::new();
    chain.add_link(set_flag("first"));
    chain.add_link(set_flag("second"));
    chain.connect(0, 99, Box::new(|_ctx: &Context| true));
    let outcome = chain.run(Context::new(), 100);
    assert!(outcome.is_completed());
    let result = outcome.into_context();
    assert_eq!(result.get_bool("first"), Some(true));
    assert_eq!(result.get_bool("second"), None);
}

#[test]
fn test_zero_budget_exhausts_immediately() {
    let mut chain = Chain::new();
    chain.add_link(set_flag("ran"));
    let outcome = chain.run(Context::new(), 0);
    assert!(!outcome.is_completed());
    let result = outcome.into_context();
    assert_eq!(result.get_bool("ran"), None);
}

#[test]
fn test_empty_chain_returns_context_unchanged() {
    let chain = Chain::new();
    let ctx = Context::new().insert("kept", Value::Int(7));
    let outcome = chain.run(ctx, 100);
    assert!(outcome.is_completed());
    assert_eq!(outcome.into_context().get_i64("kept"), Some(7));
}

#[test]
fn test_from_links_and_link_count() {
    let links: Vec<Link> = vec![set_flag("a"), set_flag("b"), set_flag("c")];
    let chain = Chain::from_links(links);
    assert_eq!(chain.link_count(), 3);
    let result = chain.run(Context::new(), 100).into_context();
    assert_eq!(result.get_bool("a"), Some(true));
    assert_eq!(result.get_bool("b"), Some(true));
    assert_eq!(result.get_bool("c"), Some(true));
}

struct CountingMiddleware {
    before_count: Arc<Mutex<u64>>,
    after_count: Arc<Mutex<u64>>,
}

impl Middleware<Context> for CountingMiddleware {
    fn before(&self, _ctx: &Context) {
        *self.before_count.lock().unwrap() += 1;
    }

    fn after(&self, _ctx: &Context) {
        *self.after_count.lock().unwrap() += 1;
    }
}

#[test]
fn test_one_middleware_cycle_per_link() {
    let mut chain = ChainGeneric::<Context, Link, Cond, CountingMiddleware>::new();
    chain.add_link(set_flag("a"));
    chain.add_link(set_flag("b"));
    chain.add_link(set_flag("c"));
    let before = Arc::new(Mutex::new(0));
    let after = Arc::new(Mutex::new(0));
    chain.use_middleware(CountingMiddleware {
        before_count: before.clone(),
        after_count: after.clone(),
    });
    let outcome = chain.run(Context::new(), 100);
    assert!(outcome.is_completed());
    assert_eq!(*before.lock().unwrap(), 3);
    assert_eq!(*after.lock().unwrap(), 3);
}

#[test]
fn test_miss_and_wrong_type_both_absent() {
    let ctx = Context::new().insert("text_key", Value::Text("hello".to_string()));
    assert_eq!(ctx.get_i64("missing_key"), None);
    assert_eq!(ctx.get_i64("text_key"), None);
    assert_eq!(ctx.get_bool("missing_key"), None);
    assert_eq!(ctx.get_bool("text_key"), None);
    assert_eq!(ctx.get_str("missing_key"), None);
    assert_eq!(ctx.get_str("text_key"), Some("hello"));

    let mut mctx = ContextMutable::new();
    mctx.insert("text_key", Value::Text("hello".to_string()));
    assert_eq!(mctx.get_i64("missing_key"), None);
    assert_eq!(mctx.get_i64("text_key"), None);
}

#[test]
fn test_insert_overwrites_prior_value() {
    let ctx = Context::new()
        .insert("k", Value::Int(1))
        .insert("k", Value::Int(2));
    assert_eq!(ctx.get_i64("k"), Some(2));

    let mut mctx = ContextMutable::new();
    mctx.insert("k", Value::Text("old".to_string()));
    mctx.insert("k", Value::Int(9));
    assert_eq!(mctx.get_i64("k"), Some(9));
    assert_eq!(mctx.get_str("k"), None);
}

#[test]
fn test_value_shapes_round_trip() {
    let ctx = Context::new()
        .insert("null", Value::Null)
        .insert("float", Value::Float(2.5f64.to_bits()))
        .insert("arr", Value::Arr(vec![Value::Int(1), Value::Int(2)]))
        .insert(
            "obj",
            Value::Obj(vec![("inner".to_string(), Value::Bool(true))]),
        );
    assert_eq!(ctx.get("null"), Some(&Value::Null));
    assert_eq!(ctx.get("float"), Some(&Value::Float(2.5f64.to_bits())));
    assert_eq!(
        ctx.get("arr"),
        Some(&Value::Arr(vec![Value::Int(1), Value::Int(2)]))
    );
    assert_eq!(
        ctx.get("obj"),
        Some(&Value::Obj(vec![("inner".to_string(), Value::Bool(true))]))
    );
    assert_eq!(ctx.get("absent"), None);
}

#[test]
fn test_repeated_runs_agree() {
    let mut chain = Chain::new();
    chain.add_link(Box::new(|ctx: Context| {
        let v = ctx.get_i64("n").unwrap_or(0);
        ctx.insert("n", Value::Int(v + 5))
    }));
    chain.add_link(Box::new(|ctx: Context| {
        let v = ctx.get_i64("n").unwrap_or(0);
        ctx.insert("n", Value::Int(v * 3))
    }));
    let first = chain.run(Context::new(), 100).into_context();
    let second = chain.run(Context::new(), 100).into_context();
    assert_eq!(first.get_i64("n"), Some(15));
    assert_eq!(second.get_i64("n"), Some(15));
}

#[test]
fn test_context_variant_equivalence() {
    let mut chain = Chain::new();
    chain.add_link(Box::new(|ctx: Context| ctx.insert("a", Value::Int(1))));
    chain.add_link(Box::new(|ctx: Context| {
        let a = ctx.get_i64("a").unwrap_or(0);
        ctx.insert("b", Value::Int(a + 10))
    }));

    let mut chain_mut = ChainMut::new();
    chain_mut.add_link(Box::new(|mut ctx: ContextMutable| {
        ctx.insert("a", Value::Int(1));
        ctx
    }));
    chain_mut.add_link(Box::new(|mut ctx: ContextMutable| {
        let a = ctx.get_i64("a").unwrap_or(0);
        ctx.insert("b", Value::Int(a + 10));
        ctx
    }));

    let r1 = chain.run(Context::new(), 100).into_context();
    let r2 = chain_mut.run(ContextMutable::new(), 100).into_context();
    assert_eq!(r1.get_i64("a"), r2.get_i64("a"));
    assert_eq!(r1.get_i64("b"), r2.get_i64("b"));
    assert_eq!(r1.get_i64("b"), Some(11));
}
