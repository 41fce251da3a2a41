//! Test branching logic in chains (ergonomic pattern)

use modulink_rs::chains::ChainGeneric;
use modulink_rs::context::{Context, Value};
use modulink_rs::middleware::LoggingMiddleware;

type Link = Box<dyn Fn(Context) -> Context>;
type Cond = Box<dyn Fn(&Context) -> bool>;
type Chain = ChainGeneric<Context, Link, Cond, LoggingMiddleware>;

fn set_error_link() -> Link {
    Box::new(|ctx: Context| ctx.insert("error", Value::Bool(true)))
}

fn handle_error_link() -> Link {
    Box::new(|ctx: Context| ctx.insert("handled", Value::Bool(true)))
}

#[test]
fn test_chain_branching() {
    let mut chain = Chain::new();
    chain.add_link(set_error_link());
    chain.add_link(handle_error_link());
    chain.connect(
        0,
        1,
        Box::new(|ctx: &Context| ctx.get_bool("error") == Some(true)),
    );
    let ctx = Context::new();
    let result = chain.run(ctx, 100).into_context();
    assert_eq!(result.get_bool("handled"), Some(true));
}
