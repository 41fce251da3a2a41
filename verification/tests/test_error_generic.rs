//! Test error propagation through links (generic pattern)

use modulink_rs::chains::ChainGeneric;
use modulink_rs::context::ContextMutable;
use modulink_rs::middleware::LoggingMiddleware;

type MyContext = ContextMutable;
type LinkMut = Box<dyn Fn(MyContext) -> MyContext>;
type CondMut = Box<dyn Fn(&MyContext) -> bool>;

fn error_link_mut() -> LinkMut {
    Box::new(|_ctx: MyContext| panic!("forced error"))
}

#[test]
#[should_panic(expected = "forced error")]
fn test_chain_error_propagation_generic() {
    let mut chain = ChainGeneric::<MyContext, LinkMut, CondMut, LoggingMiddleware>::new();
    chain.add_link(error_link_mut());
    let ctx = MyContext::new();
    let _ = chain.run(ctx, 100);
}
