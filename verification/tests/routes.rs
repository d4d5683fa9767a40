use std::sync::Arc;

use tide_fluent_routes::path::parse_fragment;
use tide_fluent_routes::{root, Method, RouteError};

#[test]
fn should_build_single_endpoint() {
    let routes: Vec<_> = root::<u64, u64>().get(1).unwrap().build();

    assert_eq!(routes.len(), 1);
}

#[test]
fn should_build_multiple_endpoints() {
    let routes: Vec<_> = root::<u64, u64>().get(1).unwrap().post(2).unwrap().build();

    assert_eq!(routes.len(), 2);
}

#[test]
fn should_build_sub_endpoints() {
    let routes: Vec<_> = root::<u64, u64>()
        .at("sub_path", |r| r.get(1)?.post(2))
        .unwrap()
        .build();

    assert_eq!(routes.len(), 2);
}

#[test]
fn should_build_endpoint_path() {
    let routes: Vec<_> = root::<u64, u64>()
        .at("path", |r| r.at("subpath", |r| r.get(1)))
        .unwrap()
        .build();

    assert_eq!(routes.len(), 1);
    assert_eq!(
        routes.get(0).unwrap().path.to_string(),
        "/path/subpath".to_string()
    );
}

#[test]
fn should_start_path_with_slash() {
    let routes: Vec<_> = root::<u64, u64>().get(1).unwrap().build();
    assert_eq!(routes.get(0).unwrap().path.to_string(), "/".to_string());
}

#[test]
fn should_collect_middleware() {
    let middleware1 = Arc::new(1u64);
    let middleware2 = Arc::new(2u64);

    let routes: Vec<_> = root::<u64, u64>()
        .at("path", |r| {
            r.with(middleware1.clone(), |r| {
                r.at("subpath", |r| r.with(middleware2.clone(), |r| r.get(1)))?
                    .get(2)
            })
        })
        .unwrap()
        .build();

    assert_eq!(routes.get(0).unwrap().middleware.len(), 1);
    assert_eq!(routes.get(1).unwrap().middleware.len(), 2);
}

#[test]
fn should_flatten_root_methods_in_order() {
    let routes = root::<u64, u64>().get(1).unwrap().post(2).unwrap().build();

    assert_eq!(routes.len(), 2);
    assert_eq!(routes[0].path.to_string(), "/");
    assert_eq!(routes[1].path.to_string(), "/");
    assert_eq!(routes[0].method, Some(Method::Get));
    assert_eq!(routes[1].method, Some(Method::Post));
    assert!(routes[0].middleware.is_empty());
    assert!(routes[1].middleware.is_empty());
    assert_eq!(routes[0].endpoint, 1);
    assert_eq!(routes[1].endpoint, 2);
}

#[test]
fn should_count_flat_bindings() {
    let routes = root::<u64, u64>()
        .get(1)
        .unwrap()
        .post(2)
        .unwrap()
        .all(3)
        .unwrap()
        .build();

    assert_eq!(routes.len(), 3);
    assert_eq!(routes[2].method, None);
    assert_eq!(routes[2].endpoint, 3);
}

#[test]
fn should_scope_middleware_to_subtree() {
    let mw = Arc::new(7u64);
    let routes = root::<u64, u64>()
        .at("api/v1", |r| r.with(mw.clone(), |r| r.get(5)))
        .unwrap()
        .build();

    assert_eq!(routes.len(), 1);
    assert_eq!(routes[0].path.to_string(), "/api/v1");
    assert_eq!(routes[0].method, Some(Method::Get));
    assert_eq!(routes[0].middleware.len(), 1);
    assert_eq!(*routes[0].middleware[0], 7);
}

#[test]
fn should_order_middleware_root_to_leaf() {
    let m1 = Arc::new(1u64);
    let m2 = Arc::new(2u64);
    let routes = root::<u64, u64>()
        .with(m1.clone(), |r| {
            r.at("x", |r| r.with(m2.clone(), |r| r.get(9)))
        })
        .unwrap()
        .build();

    assert_eq!(routes.len(), 1);
    let chain: Vec<u64> = routes[0].middleware.iter().map(|a| **a).collect();
    assert_eq!(chain, vec![1, 2]);
}

#[test]
fn should_flatten_deterministically() {
    let build_tree = || {
        root::<u64, u64>()
            .get(1)
            .unwrap()
            .at("api", |r| r.post(2))
            .unwrap()
    };
    let a = build_tree().build();
    let b = build_tree().build();
    assert_eq!(a, b);
}

#[test]
fn should_merge_existing_child() {
    let routes = root::<u64, u64>()
        .at("api", |r| r.get(1))
        .unwrap()
        .at("api", |r| r.post(2))
        .unwrap()
        .build();

    assert_eq!(routes.len(), 2);
    assert_eq!(routes[0].path.to_string(), "/api");
    assert_eq!(routes[1].path.to_string(), "/api");
}

#[test]
fn should_reject_duplicate_verb() {
    let r = root::<u64, u64>().get(1).unwrap().get(2);
    assert!(matches!(r, Err(RouteError::DuplicateMethod(Method::Get))));
}

#[test]
fn should_reject_duplicate_catch_all() {
    let r = root::<u64, u64>().all(1).unwrap().all(2);
    assert!(matches!(r, Err(RouteError::DuplicateCatchAll)));
}

#[test]
fn should_reject_empty_parameter_name() {
    let r = root::<u64, u64>().at(":", |r| Ok(r));
    assert!(matches!(r, Err(RouteError::EmptyParameter)));
}

#[test]
fn should_normalize_separators() {
    let routes = root::<u64, u64>().at("a//b/", |r| r.get(1)).unwrap().build();

    assert_eq!(routes[0].path.to_string(), "/a/b");
}

#[test]
fn should_join_fragments_normalized() {
    let a1 = parse_fragment("a/").unwrap();
    let b1 = parse_fragment("/b").unwrap();
    let a2 = parse_fragment("a").unwrap();
    let b2 = parse_fragment("b").unwrap();
    assert_eq!(a1.join(&b1), a2.join(&b2));
    assert_eq!(a1.join(&b1).to_string(), "/a/b");
}

#[test]
fn should_reject_duplicate_route_names() {
    let tree = root::<u64, u64>()
        .at("a", |r| Ok(r.name("home")))
        .unwrap()
        .at("b", |r| Ok(r.name("home")))
        .unwrap();
    let result = tree.reverse_router();
    assert!(matches!(result, Err(RouteError::DuplicateName(n)) if n == "home"));
}

#[test]
fn should_substitute_url_parameters() {
    let tree = root::<u64, u64>()
        .at("users/:a/posts/:b", |r| Ok(r.name("post")))
        .unwrap();
    let rr = tree.reverse_router().unwrap();
    let params = vec![
        ("a".to_string(), "1".to_string()),
        ("b".to_string(), "2".to_string()),
        ("extra".to_string(), "9".to_string()),
    ];
    assert_eq!(rr.url_for("post", &params).unwrap(), "/users/1/posts/2");
    let partial = vec![("a".to_string(), "1".to_string())];
    assert!(matches!(
        rr.url_for("post", &partial),
        Err(RouteError::MissingParameter(n)) if n == "b"
    ));
    assert!(matches!(
        rr.url_for("nope", &params),
        Err(RouteError::UnknownRoute(n)) if n == "nope"
    ));
}

#[test]
fn should_resolve_root_template() {
    let tree = root::<u64, u64>().name("home");
    let rr = tree.reverse_router().unwrap();
    assert_eq!(rr.url_for("home", &Vec::new()).unwrap(), "/");
}

#[test]
fn should_render_parameter_template() {
    let tree = root::<u64, u64>()
        .at("users/:id", |r| r.get(1))
        .unwrap()
        .build();
    assert_eq!(tree[0].path.to_string(), "/users/:id");
}
