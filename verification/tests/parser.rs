use ksnotify::parser::DiffParser;
use ksnotify::parser::Parsable;

#[test]
fn test_parse_correctly_parse_diff() {
    let diff = "diff -u -N /var/folders/fl/blahblah/v1.Service.test.test-app1 /var/folders/fl/blahblah/v1.Service.test.test-app1
--- /var/folders/fl/blahblah/v1.Service.test.test-app	2022-02-22 22:00:00.000000000 +0900
+++ /var/folders/fl/blahblah/v1.Service.test.test-app	2022-02-22 22:00:00.000000000 +0900
ABCDE
FGHIJ
diff -u -N /var/folders/fl/blahblah/v1.Service.test.test-app2 /var/folders/fl/blahblah/v1.Service.test.test-app2
--- /var/folders/fl/blahblah/v1.Service.test.test-app	2022-02-22 22:00:00.000000000 +0900
+++ /var/folders/fl/blahblah/v1.Service.test.test-app	2022-02-22 22:00:00.000000000 +0900
12345
67890";
    let parser = DiffParser::new(false).unwrap();
    let actual = parser.parse(diff).unwrap();
    assert_eq!(actual.kind_result.len(), 2);

    let keys = vec!["v1.Service.test.test-app1", "v1.Service.test.test-app2"];
    let values = vec!["ABCDE\nFGHIJ", "12345\n67890"];
    for (k, v) in keys.iter().zip(values) {
        assert_eq!(actual.kind_result.get(k).unwrap(), &v.to_string())
    }
}

#[test]
fn test_parse_kinds_correctly_extracts_kind() {
    let diff = "diff -u -N /var/folders/fl/blahblah/v1.Service.test.test-app1 /var/folders/fl/blahblah/v1.Service.test.test-app1
--- /var/folders/fl/blahblah/v1.Service.test.test-app	2022-02-22 22:00:00.000000000 +0900
+++ /var/folders/fl/blahblah/v1.Service.test.test-app	2022-02-22 22:00:00.000000000 +0900
ABCDE
FGHIJ
diff -u -N /var/folders/fl/blahblah/v1.Service.test.test-app2 /var/folders/fl/blahblah/v1.Service.test.test-app2
--- /var/folders/fl/blahblah/v1.Service.test.test-app	2022-02-22 22:00:00.000000000 +0900
+++ /var/folders/fl/blahblah/v1.Service.test.test-app	2022-02-22 22:00:00.000000000 +0900
12345
67890";

    let parser = DiffParser::new(false).unwrap();
    let actual = parser.parse_kinds(diff);
    let expected = vec!["v1.Service.test.test-app1", "v1.Service.test.test-app2"];
    assert_eq!(&actual[..], &expected[..]);
}

#[test]
fn test_parse_diff_correctly_extracts_list_of_diff_body() {
    let diff = "diff -u -N /var/folders/fl/blahblah/v1.Service.test.test-app /var/folders/fl/blahblah/v1.Service.test.test-app
--- /var/folders/fl/blahblah/v1.Service.test.test-app	2022-02-22 22:00:00.000000000 +0900
+++ /var/folders/fl/blahblah/v1.Service.test.test-app	2022-02-22 22:00:00.000000000 +0900
ABCDE
FGHIJ
diff -u -N /var/folders/fl/blahblah/v1.Service.test.test-app2 /var/folders/fl/blahblah/v1.Service.test.test-app2
--- /var/folders/fl/blahblah/v1.Service.test.test-app	2022-02-22 22:00:00.000000000 +0900
+++ /var/folders/fl/blahblah/v1.Service.test.test-app	2022-02-22 22:00:00.000000000 +0900
12345
67890";
    let parser = DiffParser::new(false).unwrap();
    let actual = parser.parse_diff(diff);
    let expected = vec!["ABCDE\nFGHIJ", "12345\n67890"];
    assert_eq!(&actual[..], &expected[..]);
}

#[test]
fn test_is_there_any_diff_detect_existence_of_diff() {
    let diff = "abc
def
- hij
+ klm";
    let parser = DiffParser::new(false).unwrap();
    let actual = parser.is_there_any_diff(diff);
    assert!(actual);
}

#[test]
fn test_is_there_any_diff_detect_non_existence_of_diff() {
    let diff = "abc
def
hij";
    let parser = DiffParser::new(false).unwrap();
    let actual = parser.is_there_any_diff(diff);
    assert!(!actual);
}

#[test]
fn test_remove_skaffold_labels_removes_skaffold_labels() {
    let diff = "
 @@ -5,7 +5,6 @@
     deployment.kubernetes.io/revision: 1
   labels:
     app: test-app
-    skaffold.dev/run-id: 123
   name: test-app
   namespace: test
";
    let parser = DiffParser::new(true).unwrap();
    let actual = parser.remove_skaffold_labels(diff);
    let expected = "
 @@ -5,7 +5,6 @@
     deployment.kubernetes.io/revision: 1
   labels:
     app: test-app
   name: test-app
   namespace: test
";
    assert_eq!(actual, expected);
}

#[test]
fn test_remove_skaffold_labels_do_nothing() {
    let diff = "
 @@ -5,7 +5,6 @@
     deployment.kubernetes.io/revision: 1
   labels:
     app: test-app
   name: test-app
   namespace: test
";
    let parser = DiffParser::new(true).unwrap();
    let actual = parser.remove_skaffold_labels(diff);
    let expected = "
 @@ -5,7 +5,6 @@
     deployment.kubernetes.io/revision: 1
   labels:
     app: test-app
   name: test-app
   namespace: test
";
    assert_eq!(actual, expected);
}

#[test]
fn test_remove_skaffold_labels_removes_labels_key_and_value() {
    let diff = "
 @@ -1,8 +1,6 @@
 apiVersion: batch/v1beta1
 kind: CronJob
 metadata:
-  labels:
-    skaffold.dev/run-id: 123
   name: test-app
   namespace: test
 spec:
";
    let parser = DiffParser::new(true).unwrap();
    let actual = parser.remove_skaffold_labels(diff);
    let expected = "
 @@ -1,8 +1,6 @@
 apiVersion: batch/v1beta1
 kind: CronJob
 metadata:
   name: test-app
   namespace: test
 spec:
";
    assert_eq!(actual, expected);
}

#[test]
fn test_remove_skaffold_labels_removes_skaffold_labels_with_and_without_label_key() {
    let diff = "
 @@ -1,8 +1,6 @@
 metadata:
   labels:
     app: test-app
-    skaffold.dev/run-id: 1234
   name: test-app
   namespace: test
 spec:
@@ -18,8 +16,6 @@
           creationTimestamp: null
-          labels:
-            skaffold.dev/run-id: 123
         spec:
           containers:
";
    let parser = DiffParser::new(true).unwrap();
    let actual = parser.remove_skaffold_labels(diff);
    let expected = "
 @@ -1,8 +1,6 @@
 metadata:
   labels:
     app: test-app
   name: test-app
   namespace: test
 spec:
@@ -18,8 +16,6 @@
           creationTimestamp: null
         spec:
           containers:
";
    assert_eq!(actual, expected);
}

#[test]
fn test_remove_generation_fields_removes_generation_fields() {
    let diff = "
@@ -5,9 +5,7 @@
-  generation: 18
+  generation: 19
   name: test-app
   namespace: test
";
    let parser = DiffParser::new(true).unwrap();
    let actual = parser.remove_generation_fields(diff);
    let expected = "
@@ -5,9 +5,7 @@
   name: test-app
   namespace: test
";
    assert_eq!(actual, expected);
}

#[test]
fn test_remove_generation_fields_do_nothing() {
    let diff = "
@@ -5,9 +5,7 @@
   name: test-app
   namespace: test
";
    let parser = DiffParser::new(true).unwrap();
    let actual = parser.remove_generation_fields(diff);
    let expected = "
@@ -5,9 +5,7 @@
   name: test-app
   namespace: test
";
    assert_eq!(actual, expected);
}

#[test]
fn remove_generation_fields_is_idempotent() {
    let diff = "
@@ -5,9 +5,7 @@
-  generation: 18
+  generation: 19
   name: test-app
   namespace: test
";
    let parser = DiffParser::new(false).unwrap();
    let once = parser.remove_generation_fields(diff);
    let twice = parser.remove_generation_fields(&once);
    assert_eq!(once, twice);
}

#[test]
fn remove_skaffold_labels_is_idempotent() {
    let diff = "
 metadata:
-  labels:
-    skaffold.dev/run-id: 123
   name: test-app
";
    let parser = DiffParser::new(true).unwrap();
    let once = parser.remove_skaffold_labels(diff);
    let twice = parser.remove_skaffold_labels(&once);
    assert_eq!(once, twice);
}

#[test]
fn generation_line_needs_a_digit() {
    let parser = DiffParser::new(false).unwrap();
    let diff = "-  generation: abc
   name: test-app
";
    assert_eq!(parser.remove_generation_fields(diff), diff);
}

#[test]
fn noise_only_resource_is_dropped() {
    let diff = "diff -u -N /tmp/a/apps.v1.Deployment.test.app /tmp/b/apps.v1.Deployment.test.app
--- /tmp/a/apps.v1.Deployment.test.app	2022-02-22
+++ /tmp/b/apps.v1.Deployment.test.app	2022-02-22
-  generation: 18
+  generation: 19";
    let parser = DiffParser::new(false).unwrap();
    let actual = parser.parse(diff).unwrap();
    assert_eq!(actual.kind_result.len(), 0);
}

#[test]
fn mismatched_keys_and_bodies_are_malformed() {
    // one opener line announcing a key, but no body lines at all
    let diff = "diff -u -N /tmp/a/v1.Service.test.app /tmp/b/v1.Service.test.app";
    let parser = DiffParser::new(false).unwrap();
    let actual = parser.parse(diff);
    assert!(actual.is_err());
    assert_eq!(actual.err().unwrap(), ksnotify::Error::MalformedDiff);
}

#[test]
fn parsing_is_a_pure_function_of_the_text() {
    let diff = "diff -u -N /tmp/a/v1.Service.test.app /tmp/b/v1.Service.test.app
--- /tmp/a/v1.Service.test.app	2022-02-22
+++ /tmp/b/v1.Service.test.app	2022-02-22
+kind: Service";
    let parser = DiffParser::new(false).unwrap();
    let first = parser.parse(diff).unwrap();
    let second = parser.parse(diff).unwrap();
    assert_eq!(first.kind_result.len(), second.kind_result.len());
    assert_eq!(
        first.kind_result.get("v1.Service.test.app"),
        second.kind_result.get("v1.Service.test.app")
    );
}

#[test]
fn duplicate_keys_keep_the_last_body() {
    let diff = "diff -u -N /tmp/a/v1.Service.test.app /tmp/b/v1.Service.test.app
--- /tmp/a/v1.Service.test.app	2022-02-22
+++ /tmp/b/v1.Service.test.app	2022-02-22
+kind: Service
diff -u -N /tmp/a/v1.Service.test.app /tmp/b/v1.Service.test.app
--- /tmp/a/v1.Service.test.app	2022-02-22
+++ /tmp/b/v1.Service.test.app	2022-02-22
-kind: Service";
    let parser = DiffParser::new(false).unwrap();
    let actual = parser.parse(diff).unwrap();
    assert_eq!(actual.kind_result.len(), 1);
    assert_eq!(
        actual.kind_result.get("v1.Service.test.app").unwrap(),
        &"-kind: Service".to_string()
    );
}
