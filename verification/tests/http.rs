use objwal::http::{
    address, check_address, check_body, check_content, check_delete, check_endpoint, check_page,
    check_parts, check_prefix, condition, content_key, immutable_key, list_page, owned_key,
    understand, Object, Proposal, Reply, Retry, Settle,
};
use objwal::refusal::Refusal;
use std::cell::RefCell;

type Answer = Option<(u16, &'static str, String)>;

/// A store whose answers are written down beforehand; it records what it was asked.
struct Store {
    answers: RefCell<Vec<Answer>>,
    calls: RefCell<Vec<(String, Vec<u8>)>>,
    prefix: String,
}

impl Store {
    fn new(answers: Vec<Answer>) -> Store {
        Store {
            answers: RefCell::new(answers),
            calls: RefCell::new(Vec::new()),
            prefix: "test/".to_string(),
        }
    }

    fn call(&self, line: String, body: &[u8]) -> Answer {
        self.calls.borrow_mut().push((line, body.to_vec()));
        self.answers.borrow_mut().remove(0)
    }

    fn request(
        &self,
        key: &str,
        body: Option<&[u8]>,
        header: Option<(String, String)>,
    ) -> Result<Option<Object>, Refusal> {
        let line = match (&body, &header) {
            (Some(_), Some((n, v))) => format!("PUT {key} {n}: {v}"),
            _ => format!("GET {key}"),
        };
        let reply = match self.call(line, body.unwrap_or(&[])) {
            Some((404, _, b)) => Reply::Missing(Some(b.into_bytes())),
            Some((200, etag, b)) => Reply::Answered {
                status: 200,
                etag: Some(etag.to_string()),
                body: Some(b.into_bytes()),
            },
            _ => Reply::Failed,
        };
        understand(reply, body)
    }

    fn get(&self, key: &str) -> Result<Option<Object>, Refusal> {
        let mut retry = Retry::new();
        loop {
            match self.request(key, None, None) {
                Ok(o) => return Ok(o),
                Err(e) => {
                    if !retry.failed() {
                        return Err(e);
                    }
                }
            }
        }
    }

    fn conditional(&self, key: &str, body: &[u8], prior: Option<Object>) -> Result<Object, Refusal> {
        let mut p = Proposal::new(body.to_vec(), prior);
        let mut next = Settle::Write;
        loop {
            next = match next {
                Settle::Write => {
                    let answer = self.request(key, Some(p.body()), Some(p.header()));
                    p.written(answer)
                }
                Settle::Look => p.looked(self.get(key)),
                Settle::Done(o) => return Ok(o),
                Settle::Refused(e) => return Err(e),
            };
        }
    }

    fn delete(&self, key: &str) -> Result<(), Refusal> {
        check_delete(key)?;
        let mut retry = Retry::new();
        loop {
            if let Some((204, _, _)) = self.call(format!("DELETE {key}"), &[]) {
                return Ok(());
            }
            if !retry.failed() {
                return Err(Refusal { why: "S3 retirement failed".to_string() });
            }
        }
    }

    fn list_after(&self, after: Option<&str>) -> Result<Vec<String>, Refusal> {
        let mut retry = Retry::new();
        loop {
            let start = match after {
                Some(a) => format!(" start-after={}{a}", self.prefix),
                None => String::new(),
            };
            if let Some((200, _, b)) = self.call(format!("GET prefix={}{start}", self.prefix), &[]) {
                if let Ok(keys) = list_page(b.as_bytes(), &self.prefix, after) {
                    return Ok(keys);
                }
            }
            if !retry.failed() {
                return Err(Refusal { why: "S3 archive listing failed".to_string() });
            }
        }
    }
}

fn prior() -> Option<Object> {
    Some(Object { body: b"old".to_vec(), etag: "old-tag".into() })
}

fn said(status: u16, etag: &'static str, body: &str) -> Answer {
    Some((status, etag, body.to_string()))
}

#[test]
fn listing_decodes_keys_and_keeps_pagination_inside_prefix() {
    let key = format!("chunks/{}", "a".repeat(64));
    let xml = format!(
        "<ListBucketResult xmlns=\"http://s3.amazonaws.com/doc/2006-03-01/\"><EncodingType>url</EncodingType><Contents><Key>test%2Fchunks%2F{}</Key><ETag>e</ETag><LastModified>2026-09-07T00:00:00Z</LastModified><Size>1</Size></Contents></ListBucketResult>",
        "a".repeat(64)
    );
    let s = Store::new(vec![
        said(200, "unused", &xml),
        said(
            200,
            "unused",
            "<ListBucketResult xmlns=\"http://s3.amazonaws.com/doc/2006-03-01/\"/>",
        ),
    ]);
    assert_eq!(s.list_after(None).unwrap(), vec![key.clone()]);
    assert!(s.list_after(Some(&key)).unwrap().is_empty());
    let requests = s.calls.borrow();
    assert!(requests[0].0.contains("prefix=test/"));
    assert!(requests[1].0.contains("start-after=test/chunks/"));
    assert!(!owned_key(
        "neighbor/chunks/aaaaaaaaaaaaaaaaaaaaaaaaaaaaaaaaaaaaaaaaaaaaaaaaaaaaaaaaaaaaaaaa"
    ));
    assert!(!owned_key("notes.txt"));
}

#[test]
fn listing_refuses_keys_outside_archive_prefix() {
    let xml = "<ListBucketResult xmlns=\"http://s3.amazonaws.com/doc/2006-03-01/\"><Contents><Key>other/chunks/key</Key><ETag>e</ETag><LastModified>2026-09-07T00:00:00Z</LastModified><Size>1</Size></Contents></ListBucketResult>";
    let s = Store::new(vec![said(200, "unused", xml), said(200, "unused", xml), said(200, "unused", xml)]);
    assert!(s.list_after(None).is_err());
    assert!(s.calls.borrow().iter().all(|(h, _)| h.starts_with("GET ")));
}

#[test]
fn lost_delete_response_can_be_retried_without_republishing() {
    let s = Store::new(vec![None, said(204, "unused", "")]);
    s.delete(&format!("chunks/{}", "0".repeat(64))).unwrap();
    {
        let calls = s.calls.borrow();
        assert_eq!(calls.len(), 2);
        assert!(calls.iter().all(|(h, b)| h.starts_with("DELETE ") && b.is_empty()));
    }
    assert!(s.delete("head").is_err());
    assert!(s.delete("chunks/../head").is_err());
}

#[test]
fn lost_put_response_is_confirmed_by_exact_body() {
    let s = Store::new(vec![None, said(200, "new", "proposed")]);
    assert_eq!(s.conditional("head", b"proposed", prior()).unwrap().body, b"proposed");
    let calls = s.calls.borrow();
    assert!(calls[0].0.to_lowercase().contains("if-match: old-tag"));
    assert!(calls[1].0.starts_with("GET "));
}

#[test]
fn conflict_never_rebases_to_winners_etag() {
    let s = Store::new(vec![said(412, "none", ""), said(200, "winner-tag", "winner")]);
    assert!(s.conditional("head", b"proposed", prior()).is_err());
    assert_eq!(s.calls.borrow().len(), 2);
}

#[test]
fn retry_preserves_original_condition_and_body() {
    let s = Store::new(vec![None, said(200, "old-tag", "old"), said(200, "new-tag", "")]);
    assert_eq!(s.conditional("head", b"proposed", prior()).unwrap().etag, "new-tag");
    let calls = s.calls.borrow();
    assert_eq!(calls[0].1, calls[2].1);
    assert!(calls[0].0.to_lowercase().contains("if-match: old-tag"));
    assert!(calls[2].0.to_lowercase().contains("if-match: old-tag"));
}

#[test]
fn a_write_that_never_settles_is_given_up() {
    let old = || said(200, "old-tag", "old");
    let s = Store::new(vec![None, old(), None, old(), None, old()]);
    let e = s.conditional("head", b"proposed", prior()).unwrap_err();
    assert_eq!(e.message(), "S3 conditional publication remains unresolved");
    let missing = "<Error><Code>NoSuchKey</Code></Error>";
    let s = Store::new(vec![None, said(404, "", missing), said(200, "first", "")]);
    assert_eq!(s.conditional("head", b"proposed", None).unwrap().etag, "first");
    assert!(s.calls.borrow()[0].0.contains("if-none-match: *"));
}

#[test]
fn replies_are_told_apart() {
    let answered = |status: u16, etag: Option<&str>, body: Option<&[u8]>| Reply::Answered {
        status,
        etag: etag.map(|e| e.to_string()),
        body: body.map(|b| b.to_vec()),
    };
    let said = |r: Reply, put: Option<&[u8]>| match understand(r, put) {
        Ok(_) => "ok".to_string(),
        Err(e) => e.message(),
    };
    assert_eq!(said(Reply::Failed, None), "S3 request failed or its result is unknown");
    assert_eq!(said(Reply::Missing(None), None), "S3 response interrupted");
    assert_eq!(said(Reply::Missing(Some(b"x".to_vec())), None), "S3 bucket missing or inaccessible");
    assert_eq!(
        said(Reply::Missing(Some(b"<Code>NoSuchKey</Code>".to_vec())), Some(b"x")),
        "S3 request failed or its result is unknown"
    );
    assert_eq!(said(answered(204, None, None), None), "unexpected S3 status");
    assert_eq!(said(answered(200, None, None), None), "S3 response lacks ETag");
    assert_eq!(said(answered(200, Some("e"), None), None), "S3 response interrupted");
    let got = understand(answered(200, Some("e"), Some(b"body")), None).unwrap().unwrap();
    assert_eq!((got.body.as_slice(), got.etag.as_str()), (b"body".as_slice(), "e"));
    let put = understand(answered(200, Some("e"), Some(b"")), Some(b"sent")).unwrap().unwrap();
    assert_eq!(put.body, b"sent".to_vec());
    let same = Object { body: b"body".to_vec(), etag: "e".to_string() };
    assert!(got.same(&same));
    assert!(!put.same(&same));
    assert!(got.copy().same(&same));
}

#[test]
fn endpoints_are_local_or_encrypted() {
    assert!(check_endpoint("https://s3.example.org").is_ok());
    assert!(check_endpoint("http://127.0.0.1:9000").is_ok());
    assert!(check_endpoint("http://LOCALHOST:9000").is_ok());
    let said = |e: &str| check_endpoint(e).unwrap_err().message();
    assert_eq!(said("http://s3.example.org"), "nonlocal S3 endpoints require HTTPS");
    assert_eq!(said("ftp://127.0.0.1"), "nonlocal S3 endpoints require HTTPS");
    assert_eq!(said("no endpoint"), "invalid S3 endpoint");
    let parts = Some(("http".to_string(), Some("localhost".to_string())));
    assert!(check_parts(&parts).is_ok());
    assert!(check_parts(&Some(("http".to_string(), None))).is_err());
    assert!(check_prefix("a/b/").is_ok());
    for p in ["", "a", "/a/", "a/../b/"] {
        assert!(check_prefix(p).is_err(), "{p}");
    }
}

#[test]
fn objects_are_named_by_their_content() {
    let sum = "ba7816bf8f01cfea414140de5dae2223b00361a396177a9cb410ff61f20015ad";
    let (key, path) = immutable_key("chunks", b"abc");
    assert_eq!(key, sum);
    assert_eq!(path, format!("chunks/{sum}"));
    assert_eq!(content_key("retired", "k"), "retired/k");
    assert!(check_content(sum, b"abc").is_ok());
    assert!(check_content(sum, b"abd").is_err());
    assert!(check_address(sum).is_ok());
    assert!(check_address("abc").is_err());
    assert!(address(sum));
    assert!(!address(&sum.to_uppercase()));
    assert!(owned_key(&path));
    assert!(!owned_key(&format!("heads/{sum}")));
    assert_eq!(condition(None), ("if-none-match".to_string(), "*".to_string()));
    assert_eq!(condition(Some("t")), ("if-match".to_string(), "t".to_string()));
    assert!(check_body(b"small").is_ok());
}

#[test]
fn a_page_of_keys_is_in_order_and_not_empty_midway() {
    let page = |keys: &[&str], more: bool| Some((keys.iter().map(|k| k.to_string()).collect(), more));
    assert_eq!(check_page(page(&["p/a", "p/b"], true), "p/", "").unwrap(), vec!["a", "b"]);
    let said = |l: Option<(Vec<String>, bool)>, after: &str| {
        check_page(l, "p/", after).unwrap_err().message()
    };
    assert_eq!(said(None, ""), "invalid S3 listing response");
    assert_eq!(said(page(&[], true), ""), "invalid S3 listing page");
    assert_eq!(said(page(&["p/b", "p/a"], false), ""), "unordered S3 listing");
    assert_eq!(said(page(&["p/a"], false), "a"), "unordered S3 listing");
    assert_eq!(said(page(&["p/"], false), ""), "unordered S3 listing");
    assert_eq!(said(page(&["q/a"], false), ""), "S3 listing escaped archive prefix");
    assert!(check_page(page(&[], false), "p/", "a").unwrap().is_empty());
    assert!(list_page(b"\xff", "p/", None).is_err());
    assert!(list_page(b"not xml", "p/", None).is_err());
}
