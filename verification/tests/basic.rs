use pygmalion::parser;
use pygmalion::render;

#[test]
fn it_works() {
    let result = parser::add(2, 2);
    assert_eq!(result, 4);
}

#[test]
fn lib_it_works() {
    let result = render::add(2, 2);
    assert_eq!(result, 4);
}
