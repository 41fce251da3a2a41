//! Test links inserting into both context variants through a chain

use modulink_rs::chains::ChainGeneric;
use modulink_rs::context::{Context, ContextMutable, Value};
use modulink_rs::middleware::LoggingMiddleware;

type Link = Box<dyn Fn(Context) -> Context>;
type Cond = Box<dyn Fn(&Context) -> bool>;
type LinkMut = Box<dyn Fn(ContextMutable) -> ContextMutable>;
type CondMut = Box<dyn Fn(&ContextMutable) -> bool>;

#[test]
fn test_context_link_insert() {
    let link: Link = Box::new(|ctx: Context| ctx.insert("a", Value::Int(42)));
    let mut chain = ChainGeneric::<Context, Link, Cond, LoggingMiddleware>::new();
    chain.add_link(link);
    let ctx = Context::new();
    let result = chain.run(ctx, 100).into_context();
    assert_eq!(result.get_i64("a"), Some(42));
}

#[test]
fn test_mutable_context_link_insert() {
    let link: LinkMut = Box::new(|mut ctx: ContextMutable| {
        ctx.insert("a", Value::Int(42));
        ctx
    });
    let mut chain = ChainGeneric::<ContextMutable, LinkMut, CondMut, LoggingMiddleware>::new();
    chain.add_link(link);
    let ctx = ContextMutable::new();
    let result = chain.run(ctx, 100).into_context();
    assert_eq!(result.get_i64("a"), Some(42));
}
