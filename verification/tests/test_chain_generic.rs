//! Tests for the generic chain over the mutable and custom context types

use modulink_rs::chains::ChainGeneric;
use modulink_rs::context::{ContextMutable, Value};
use modulink_rs::middleware::{LoggingMiddleware, Middleware};

type LinkMut = Box<dyn Fn(ContextMutable) -> ContextMutable>;
type CondMut = Box<dyn Fn(&ContextMutable) -> bool>;

#[test]
fn test_chain_with_mutable_context() {
    let link: LinkMut = Box::new(|mut ctx: ContextMutable| {
        ctx.insert("b", Value::Int(2));
        ctx
    });
    let mut chain = ChainGeneric::<ContextMutable, LinkMut, CondMut, LoggingMiddleware>::new();
    chain.add_link(link);
    let ctx = ContextMutable::new();
    let result = chain.run(ctx, 100).into_context();
    assert_eq!(result.get_i64("b"), Some(2));
}

#[derive(Debug, Clone, PartialEq)]
struct CustomCtx(i32);

struct NoopMiddleware;

impl Middleware<CustomCtx> for NoopMiddleware {}

type LinkCustom = Box<dyn Fn(CustomCtx) -> CustomCtx>;
type CondCustom = Box<dyn Fn(&CustomCtx) -> bool>;

#[test]
fn test_chain_with_custom_type() {
    let link: LinkCustom = Box::new(|ctx: CustomCtx| CustomCtx(ctx.0 + 10));
    let mut chain = ChainGeneric::<CustomCtx, LinkCustom, CondCustom, NoopMiddleware>::new();
    chain.add_link(link);
    let ctx = CustomCtx(5);
    let result = chain.run(ctx, 100).into_context();
    assert_eq!(result, CustomCtx(15));
}
