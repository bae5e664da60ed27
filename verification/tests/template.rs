use ksnotify::changeset::ResourceChangeSet;
use ksnotify::template::Template;

#[test]
fn test_render_for_created_kinds() {
    let mut data = ResourceChangeSet::new();
    data.insert(
        "apps.v1.Deployment.default.hoge".to_string(),
        "+apiVersion: apps/v1
+kind: Deployment
+metadata:
+  name: hoge"
            .to_string(),
    );
    let template = Template::new(
        data,
        "https://example.com".to_string(),
        Some("target".to_string()),
    );
    let actual = template.render().unwrap();
    let expected = "## Plan result (target)
[CI link]( https://example.com )

## created
* apps.v1.Deployment.default.hoge

<details><summary>Details (Click me)</summary>

### apps.v1.Deployment.default.hoge
```diff
+apiVersion: apps/v1
+kind: Deployment
+metadata:
+  name: hoge
```

</details>
"
    .to_string();
    assert_eq!(actual, expected);
}

#[test]
fn test_render_for_pruned_kinds() {
    let mut data = ResourceChangeSet::new();
    data.insert(
        "apps.v1.Deployment.default.hoge".to_string(),
        "-apiVersion: apps/v1
-kind: Deployment
-metadata:
-  name: hoge"
            .to_string(),
    );
    let template = Template::new(
        data,
        "https://example.com".to_string(),
        Some("target".to_string()),
    );
    let actual = template.render().unwrap();
    let expected = "## Plan result (target)
[CI link]( https://example.com )

## pruned
* apps.v1.Deployment.default.hoge

<details><summary>Details (Click me)</summary>

### apps.v1.Deployment.default.hoge
```diff
-apiVersion: apps/v1
-kind: Deployment
-metadata:
-  name: hoge
```

</details>
"
    .to_string();
    assert_eq!(actual, expected);
}

#[test]
fn test_render_for_configured_kinds() {
    let mut data = ResourceChangeSet::new();
    data.insert(
        "apps.v1.Deployment.default.hoge".to_string(),
        "-  image: hoge
+  image: fuga"
            .to_string(),
    );
    let template = Template::new(
        data,
        "https://example.com".to_string(),
        Some("target".to_string()),
    );
    let actual = template.render().unwrap();
    let expected = "## Plan result (target)
[CI link]( https://example.com )

## configured
* apps.v1.Deployment.default.hoge

<details><summary>Details (Click me)</summary>

### apps.v1.Deployment.default.hoge
```diff
-  image: hoge
+  image: fuga
```

</details>
"
    .to_string();
    assert_eq!(actual, expected);
}

#[test]
fn test_render_title_with_target() {
    let template = Template {
        target: Some("sample".to_string()),
        created_kinds: Vec::new(),
        pruned_kinds: Vec::new(),
        configured_kinds: Vec::new(),
        details: String::new(),
        link: String::new(),
        is_no_changes: true,
    };
    let actual = template.render_title();
    let expected = "## Plan result (sample)".to_string();
    assert_eq!(actual, expected);
}

#[test]
fn test_render_title_without_target() {
    let template = Template {
        target: None,
        created_kinds: Vec::new(),
        pruned_kinds: Vec::new(),
        configured_kinds: Vec::new(),
        details: String::new(),
        link: String::new(),
        is_no_changes: true,
    };
    let actual = template.render_title();
    let expected = "## Plan result".to_string();
    assert_eq!(actual, expected);
}

#[test]
fn test_render_body_with_no_changes() {
    let data = ResourceChangeSet::new();
    let template = Template::new(
        data,
        "https://example.com".to_string(),
        Some("target".to_string()),
    );
    let actual = template.render().unwrap();
    let expected = "## Plan result (target)
[CI link]( https://example.com )

```
No changes. Kubernetes configurations are up-to-date.
```
"
    .to_string();
    assert_eq!(actual, expected);
}

#[test]
fn test_is_same_build_with_target_none() {
    let template = Template {
        target: None,
        created_kinds: Vec::new(),
        pruned_kinds: Vec::new(),
        configured_kinds: Vec::new(),
        details: "test".to_string(),
        link: "http://example.com".to_string(),
        is_no_changes: false,
    };
    assert!(!template.is_same_build("test").unwrap());
}

#[test]
fn test_is_same_build_with_same_build() {
    let template = Template {
        target: Some("test".to_string()),
        created_kinds: Vec::new(),
        pruned_kinds: Vec::new(),
        configured_kinds: Vec::new(),
        details: "test".to_string(),
        link: "http://example.com".to_string(),
        is_no_changes: false,
    };
    assert!(template.is_same_build("## Plan result (test)").unwrap())
}

#[test]
fn test_is_same_build_with_different_build() {
    let template = Template {
        target: Some("test1".to_string()),
        created_kinds: Vec::new(),
        pruned_kinds: Vec::new(),
        configured_kinds: Vec::new(),
        details: "test".to_string(),
        link: "http://example.com".to_string(),
        is_no_changes: false,
    };
    assert!(!template.is_same_build("## Plan result (test2)").unwrap())
}

#[test]
fn is_same_build_without_target_rejects_everything() {
    let template = Template {
        target: None,
        created_kinds: Vec::new(),
        pruned_kinds: Vec::new(),
        configured_kinds: Vec::new(),
        details: String::new(),
        link: String::new(),
        is_no_changes: true,
    };
    assert!(!template.is_same_build("## Plan result").unwrap());
    assert!(!template.is_same_build("").unwrap());
    assert!(!template.is_same_build("## Plan result (T)\nbody").unwrap());
}

#[test]
fn is_same_build_compares_the_first_line_exactly() {
    let template = Template {
        target: Some("T".to_string()),
        created_kinds: Vec::new(),
        pruned_kinds: Vec::new(),
        configured_kinds: Vec::new(),
        details: String::new(),
        link: String::new(),
        is_no_changes: true,
    };
    assert!(template.is_same_build("## Plan result (T)").unwrap());
    assert!(template
        .is_same_build("## Plan result (T)\nanything below")
        .unwrap());
    assert!(!template.is_same_build("## Plan result (T) ").unwrap());
    assert!(!template.is_same_build("## Plan result (t)").unwrap());
    assert!(!template.is_same_build(" ## Plan result (T)").unwrap());
    assert!(!template.is_same_build("").unwrap());
}

#[test]
fn resource_with_both_kind_markers_lands_in_created_and_pruned() {
    let mut data = ResourceChangeSet::new();
    data.insert(
        "apps.v1.Deployment.default.hoge".to_string(),
        "-kind: Deployment
+kind: StatefulSet"
            .to_string(),
    );
    let template = Template::new(data, "https://example.com".to_string(), None);
    assert_eq!(
        template.created_kinds,
        vec!["apps.v1.Deployment.default.hoge".to_string()]
    );
    assert_eq!(
        template.pruned_kinds,
        vec!["apps.v1.Deployment.default.hoge".to_string()]
    );
    assert!(template.configured_kinds.is_empty());
}

#[test]
fn pruned_only_resource_is_not_created() {
    let mut data = ResourceChangeSet::new();
    data.insert(
        "apps.v1.Deployment.default.hoge".to_string(),
        "-kind: Deployment".to_string(),
    );
    let template = Template::new(data, "https://example.com".to_string(), None);
    assert!(template.created_kinds.is_empty());
    assert_eq!(
        template.pruned_kinds,
        vec!["apps.v1.Deployment.default.hoge".to_string()]
    );
    assert!(template.configured_kinds.is_empty());
}

#[test]
fn kind_lists_are_sorted_by_key() {
    let mut data = ResourceChangeSet::new();
    data.insert("v1.Service.ns.bbb".to_string(), "+kind: Service".to_string());
    data.insert("v1.Service.ns.aaa".to_string(), "+kind: Service".to_string());
    let template = Template::new(data, "https://example.com".to_string(), None);
    assert_eq!(
        template.created_kinds,
        vec![
            "v1.Service.ns.aaa".to_string(),
            "v1.Service.ns.bbb".to_string()
        ]
    );
}
