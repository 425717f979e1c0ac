use std::rc::Rc;

use abxml::namespace::NamespaceStack;

fn s(v: &str) -> Rc<String> {
    Rc::new(v.to_string())
}

#[test]
fn prefix_visible_while_open_and_gone_after_end() {
    let mut ns = NamespaceStack::new();
    let android = "android".to_string();
    assert!(ns.lookup(&android).is_none());
    ns.start_namespace(s("android"), s("http://schemas.android.com/apk/res/android"));
    assert_eq!(ns.depth(), 1);
    assert_eq!(*ns.lookup(&android).unwrap(), "http://schemas.android.com/apk/res/android");
    ns.start_namespace(s("tools"), s("http://schemas.android.com/tools"));
    assert_eq!(ns.depth(), 2);
    assert_eq!(*ns.lookup(&android).unwrap(), "http://schemas.android.com/apk/res/android");
    ns.end_namespace();
    assert_eq!(*ns.lookup(&android).unwrap(), "http://schemas.android.com/apk/res/android");
    let (prefix, _) = ns.end_namespace().unwrap();
    assert_eq!(*prefix, "android");
    assert!(ns.lookup(&android).is_none());
    assert!(ns.end_namespace().is_none());
}

#[test]
fn inner_binding_shadows_outer() {
    let mut ns = NamespaceStack::new();
    let app = "app".to_string();
    ns.start_namespace(s("app"), s("outer"));
    ns.start_namespace(s("app"), s("inner"));
    assert_eq!(*ns.lookup(&app).unwrap(), "inner");
    ns.end_namespace();
    assert_eq!(*ns.lookup(&app).unwrap(), "outer");
    let prefixes = ns.prefixes();
    assert_eq!(prefixes.len(), 1);
    assert_eq!(*prefixes[0], "app");
}
