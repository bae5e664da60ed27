use ksnotify::changeset::ResourceChangeSet;
use ksnotify::parser::DiffParser;
use ksnotify::parser::Parsable;
use ksnotify::template::Template;

#[test]
fn scenario_two_plain_resources_survive_whole() {
    let diff = "diff -u -N /tmp/a/v1.Service.ns.app1 /tmp/b/v1.Service.ns.app1
--- /tmp/a/v1.Service.ns.app1	2022-02-22
+++ /tmp/b/v1.Service.ns.app1	2022-02-22
ABCDE
FGHIJ
diff -u -N /tmp/a/v1.Service.ns.app2 /tmp/b/v1.Service.ns.app2
--- /tmp/a/v1.Service.ns.app2	2022-02-22
+++ /tmp/b/v1.Service.ns.app2	2022-02-22
12345
67890";
    let parser = DiffParser::new(false).unwrap();
    let actual = parser.parse(diff).unwrap();
    assert_eq!(actual.kind_result.len(), 2);
    assert_eq!(
        actual.kind_result.get("v1.Service.ns.app1").unwrap(),
        &"ABCDE\nFGHIJ".to_string()
    );
    assert_eq!(
        actual.kind_result.get("v1.Service.ns.app2").unwrap(),
        &"12345\n67890".to_string()
    );
}

#[test]
fn scenario_empty_diff_renders_the_no_changes_notice() {
    let parser = DiffParser::new(false).unwrap();
    let actual = parser.parse("").unwrap();
    assert!(actual.kind_result.is_empty());

    let template = Template::new(
        actual.kind_result,
        "https://ci.example.com/job/9".to_string(),
        Some("T".to_string()),
    );
    assert!(template.is_no_changes);
    let rendered = template.render().unwrap();
    assert!(rendered.contains("No changes. Kubernetes configurations are up-to-date."));
    assert!(rendered.contains("https://ci.example.com/job/9"));
    assert!(template.is_same_build("## Plan result (T)").unwrap());
    assert!(!template.is_same_build("## Plan result").unwrap());

    let untargeted = Template::new(
        ResourceChangeSet::new(),
        "https://ci.example.com/job/9".to_string(),
        None,
    );
    assert!(!untargeted.is_same_build("## Plan result").unwrap());
}

#[test]
fn scenario_run_id_label_is_stripped_without_collateral() {
    let diff = "diff -u -N /tmp/a/apps.v1.Deployment.ns.app /tmp/b/apps.v1.Deployment.ns.app
--- /tmp/a/apps.v1.Deployment.ns.app	2022-02-22
+++ /tmp/b/apps.v1.Deployment.ns.app	2022-02-22
 metadata:
   labels:
     app: test-app
+    skaffold.dev/run-id: 123
   name: test-app
-  replicas: 2
+  replicas: 3";
    let parser = DiffParser::new(true).unwrap();
    let actual = parser.parse(diff).unwrap();
    assert_eq!(actual.kind_result.len(), 1);
    let body = actual.kind_result.get("apps.v1.Deployment.ns.app").unwrap();
    let expected = "metadata:
   labels:
     app: test-app
   name: test-app
-  replicas: 2
+  replicas: 3";
    assert_eq!(body, &expected.to_string());
}

#[test]
fn suppression_disabled_keeps_the_run_id_label() {
    let diff = "diff -u -N /tmp/a/apps.v1.Deployment.ns.app /tmp/b/apps.v1.Deployment.ns.app
--- /tmp/a/apps.v1.Deployment.ns.app	2022-02-22
+++ /tmp/b/apps.v1.Deployment.ns.app	2022-02-22
 metadata:
+    skaffold.dev/run-id: 123
   name: test-app";
    let parser = DiffParser::new(false).unwrap();
    let actual = parser.parse(diff).unwrap();
    let body = actual.kind_result.get("apps.v1.Deployment.ns.app").unwrap();
    assert!(body.contains("skaffold.dev/run-id"));
}
