use case_registry::{AccountId, Case, CaseNFT, CaseNFTOutput, Category, ContentHash, Error, Status};

fn account(b: u8) -> AccountId {
    AccountId([b; 32])
}

fn record(title: &str, description: &str, category: Category, status: Status) -> CaseNFT {
    CaseNFT {
        title: title.to_string(),
        description: description.to_string(),
        category,
        owner: account(7),
        bounty: 100,
        file: ContentHash([9; 32]),
        status,
    }
}

fn ids(v: &[CaseNFTOutput]) -> Vec<u32> {
    v.iter().map(|o| o.case_id).collect()
}

#[test]
fn first_ids_start_at_one_and_increase() {
    let mut reg = Case::new(account(1));
    assert_eq!(reg.last_id(), 0);
    assert_eq!(reg.set_case(record("a", "", Category::Scam, Status::New)), 1);
    assert_eq!(reg.set_case(record("b", "", Category::Web, Status::New)), 2);
    assert_eq!(reg.set_case(record("c", "", Category::Web, Status::New)), 3);
    assert_eq!(reg.last_id(), 3);
}

#[test]
fn deleted_ids_are_never_reused() {
    let mut reg = Case::new(account(1));
    let a = reg.set_case(record("a", "", Category::Scam, Status::New));
    let b = reg.set_case(record("b", "", Category::Scam, Status::New));
    assert_eq!(reg.burn_case(b), Ok(()));
    let c = reg.set_case(record("c", "", Category::Scam, Status::New));
    assert_eq!((a, b, c), (1, 2, 3));
    assert_eq!(reg.burn_case(a), Ok(()));
    assert_eq!(reg.burn_case(c), Ok(()));
    let mut fresh = Vec::new();
    for _ in 0..5 {
        fresh.push(reg.set_case(record("n", "", Category::Web, Status::New)));
    }
    assert_eq!(fresh, vec![4, 5, 6, 7, 8]);
    assert!(reg.get_case_by_id(b).is_none());
}

#[test]
fn create_then_read_returns_same_fields() {
    let mut reg = Case::new(account(1));
    let id = reg.set_case(CaseNFT {
        title: "phishing site".to_string(),
        description: "fake bank login".to_string(),
        category: Category::Web,
        owner: account(3),
        bounty: 12345678901234567890,
        file: ContentHash([0xab; 32]),
        status: Status::Evidence,
    });
    let got = reg.get_case_by_id(id).unwrap();
    assert_eq!(got.case_id, id);
    assert_eq!(got.title, "phishing site");
    assert_eq!(got.description, "fake bank login");
    assert_eq!(got.category, Category::Web);
    assert_eq!(got.owner, account(3));
    assert_eq!(got.bounty, 12345678901234567890);
    assert_eq!(got.file, ContentHash([0xab; 32]));
    assert_eq!(got.status, Status::Evidence);
    assert_eq!(reg.get_case_title(id), Some("phishing site".to_string()));
}

#[test]
fn update_replaces_every_field() {
    let mut reg = Case::new(account(1));
    let id = reg.set_case(record("old", "old text", Category::Scam, Status::New));
    let r2 = CaseNFT {
        title: "new".to_string(),
        description: "".to_string(),
        category: Category::Others,
        owner: account(4),
        bounty: 0,
        file: ContentHash([1; 32]),
        status: Status::Close,
    };
    assert_eq!(reg.update_case(id, r2), Ok(()));
    let got = reg.get_case_by_id(id).unwrap();
    assert_eq!(got.title, "new");
    assert_eq!(got.description, "");
    assert_eq!(got.category, Category::Others);
    assert_eq!(got.owner, account(4));
    assert_eq!(got.bounty, 0);
    assert_eq!(got.file, ContentHash([1; 32]));
    assert_eq!(got.status, Status::Close);
}

#[test]
fn update_of_missing_record_fails() {
    let mut reg = Case::new(account(1));
    reg.set_case(record("a", "", Category::Scam, Status::New));
    assert_eq!(reg.update_case(5, record("x", "", Category::Web, Status::New)), Err(Error::CaseNotFound));
    assert_eq!(reg.get_case_title(1), Some("a".to_string()));
    assert!(reg.get_case_by_id(5).is_none());
}

#[test]
fn delete_is_permanent() {
    let mut reg = Case::new(account(1));
    let id = reg.set_case(record("a", "", Category::Scam, Status::New));
    let other = reg.set_case(record("b", "", Category::Scam, Status::New));
    assert_eq!(reg.burn_case(id), Ok(()));
    assert!(reg.get_case_by_id(id).is_none());
    assert_eq!(reg.get_case_title(id), None);
    assert_eq!(reg.update_case(id, record("z", "", Category::Web, Status::New)), Err(Error::CaseNotFound));
    assert_eq!(reg.burn_case(id), Err(Error::CaseNotFound));
    assert_eq!(reg.get_case_title(other), Some("b".to_string()));
    assert_eq!(ids(&reg.list_all()), vec![other]);
}

#[test]
fn lookup_of_id_returns_zero_when_absent() {
    let mut reg = Case::new(account(1));
    let id = reg.set_case(record("a", "", Category::Scam, Status::New));
    assert_eq!(reg.get_case_id(id), id);
    assert_eq!(reg.get_case_id(2), 0);
    assert_eq!(reg.get_case_id(0), 0);
}

#[test]
fn three_records_scam_filter_pages() {
    let mut reg = Case::new(account(1));
    reg.set_case(record("one", "", Category::Scam, Status::New));
    reg.set_case(record("two", "", Category::Web, Status::New));
    reg.set_case(record("three", "", Category::Scam, Status::Close));
    let (page1, total1) = reg.get_all_case(1, 2, String::new(), Category::Scam, Status::All);
    assert_eq!(ids(&page1), vec![1, 3]);
    assert_eq!(total1, 2);
    let (page2, total2) = reg.get_all_case(2, 2, String::new(), Category::Scam, Status::All);
    assert!(page2.is_empty());
    assert_eq!(total2, 2);
}

#[test]
fn non_owner_cannot_set_code() {
    let mut reg = Case::new(account(1));
    reg.set_case(record("a", "d", Category::Scam, Status::New));
    reg.set_case(record("b", "e", Category::Person, Status::Voting));
    assert_eq!(reg.set_code(account(2), ContentHash([5; 32])), Err(Error::Unauthorized));
    let all = reg.list_all();
    assert_eq!(ids(&all), vec![1, 2]);
    assert_eq!(all[0].title, "a");
    assert_eq!(all[1].status, Status::Voting);
    assert_eq!(reg.last_id(), 2);
}

#[test]
fn owner_may_set_code() {
    let reg = Case::new(account(1));
    assert_eq!(reg.set_code(account(1), ContentHash([5; 32])), Ok(()));
}

#[test]
fn unowned_registry_lets_anyone_set_code() {
    let reg = Case::new_unowned();
    assert_eq!(reg.set_code(account(2), ContentHash([5; 32])), Ok(()));
}

fn sample() -> Case {
    let mut reg = Case::new(account(1));
    reg.set_case(record("Rug pull token", "liquidity drained", Category::Scam, Status::New));
    reg.set_case(record("Fake shop", "web store never ships", Category::Web, Status::Evidence));
    reg.set_case(record("Impostor", "pretends to be support", Category::Person, Status::Voting));
    reg.set_case(record("Moon landing", "token airdrop scam", Category::ConspiracyTheory, Status::Close));
    reg.set_case(record("Ponzi", "scam with referrals", Category::Scam, Status::Voting));
    reg
}

#[test]
fn keyword_matches_title_or_description() {
    let reg = sample();
    let (page, total) = reg.get_all_case(1, 10, "token".to_string(), Category::All, Status::All);
    assert_eq!(ids(&page), vec![1, 4]);
    assert_eq!(total, 2);
    let (page, total) = reg.get_all_case(1, 10, "scam".to_string(), Category::All, Status::All);
    assert_eq!(ids(&page), vec![4, 5]);
    assert_eq!(total, 2);
}

#[test]
fn keyword_is_case_sensitive() {
    let reg = sample();
    let (page, total) = reg.get_all_case(1, 10, "Token".to_string(), Category::All, Status::All);
    assert!(page.is_empty());
    assert_eq!(total, 0);
    let (_, total) = reg.get_all_case(1, 10, "ponzi".to_string(), Category::All, Status::All);
    assert_eq!(total, 0);
}

#[test]
fn keyword_helper_checks_both_texts() {
    let c = record("alpha", "beta gamma", Category::Scam, Status::New);
    assert!(Case::case_contains_keywords(&c, &"pha".to_string()));
    assert!(Case::case_contains_keywords(&c, &"a g".to_string()));
    assert!(Case::case_contains_keywords(&c, &String::new()));
    assert!(!Case::case_contains_keywords(&c, &"delta".to_string()));
    assert!(!Case::case_contains_keywords(&c, &"alphabet".to_string()));
}

#[test]
fn category_and_status_helpers() {
    let c = record("a", "", Category::Person, Status::Voting);
    assert!(Case::category_matches(&c, Category::Person));
    assert!(Case::category_matches(&c, Category::All));
    assert!(!Case::category_matches(&c, Category::Web));
    assert!(Case::status_matches(&c, Status::Voting));
    assert!(Case::status_matches(&c, Status::All));
    assert!(!Case::status_matches(&c, Status::New));
}

#[test]
fn filters_combine() {
    let reg = sample();
    let (page, total) = reg.get_all_case(1, 10, String::new(), Category::Scam, Status::Voting);
    assert_eq!(ids(&page), vec![5]);
    assert_eq!(total, 1);
    let (page, total) = reg.get_all_case(1, 10, "o".to_string(), Category::All, Status::Voting);
    assert_eq!(ids(&page), vec![3, 5]);
    assert_eq!(total, 2);
}

#[test]
fn total_does_not_depend_on_page() {
    let reg = sample();
    for page in 0..5u32 {
        for size in 0..4u32 {
            let (_, total) = reg.get_all_case(page, size, String::new(), Category::All, Status::All);
            assert_eq!(total, 5);
        }
    }
}

#[test]
fn pages_concatenate_to_all_matches() {
    let reg = sample();
    for size in 1..7u32 {
        let mut joined = Vec::new();
        for page in 1..=6u32 {
            let (p, _) = reg.get_all_case(page, size, String::new(), Category::All, Status::All);
            assert!(p.len() <= size as usize);
            joined.extend(ids(&p));
        }
        assert_eq!(joined, vec![1, 2, 3, 4, 5]);
    }
}

#[test]
fn window_excludes_lower_bound_rank() {
    let reg = sample();
    let (p, total) = reg.get_all_case(2, 2, String::new(), Category::All, Status::All);
    assert_eq!(ids(&p), vec![3, 4]);
    assert_eq!(total, 5);
    let (p, _) = reg.get_all_case(3, 2, String::new(), Category::All, Status::All);
    assert_eq!(ids(&p), vec![5]);
}

#[test]
fn page_zero_is_page_one() {
    let reg = sample();
    let (p0, _) = reg.get_all_case(0, 2, String::new(), Category::All, Status::All);
    let (p1, _) = reg.get_all_case(1, 2, String::new(), Category::All, Status::All);
    assert_eq!(ids(&p0), vec![1, 2]);
    assert_eq!(ids(&p0), ids(&p1));
}

#[test]
fn page_size_zero_gives_empty_page_and_true_total() {
    let reg = sample();
    let (p, total) = reg.get_all_case(1, 0, String::new(), Category::Scam, Status::All);
    assert!(p.is_empty());
    assert_eq!(total, 2);
}

#[test]
fn page_past_the_end_is_empty() {
    let reg = sample();
    let (p, total) = reg.get_all_case(4, 2, String::new(), Category::All, Status::All);
    assert!(p.is_empty());
    assert_eq!(total, 5);
}

#[test]
fn huge_page_parameters_do_not_fail() {
    let reg = sample();
    let (p, total) = reg.get_all_case(u32::MAX, u32::MAX, String::new(), Category::All, Status::All);
    assert!(p.is_empty());
    assert_eq!(total, 5);
    let (p, _) = reg.get_all_case(1, u32::MAX, String::new(), Category::All, Status::All);
    assert_eq!(ids(&p), vec![1, 2, 3, 4, 5]);
}

#[test]
fn wildcards_reproduce_list_all() {
    let mut reg = sample();
    reg.burn_case(2).unwrap();
    let (p, total) = reg.get_all_case(1, 100, String::new(), Category::All, Status::All);
    let all = reg.list_all();
    assert_eq!(ids(&p), ids(&all));
    assert_eq!(ids(&all), vec![1, 3, 4, 5]);
    assert_eq!(total, 4);
    assert_eq!(p[1].title, all[1].title);
}

#[test]
fn empty_registry_queries() {
    let reg = Case::new(account(1));
    assert!(reg.list_all().is_empty());
    let (p, total) = reg.get_all_case(1, 10, String::new(), Category::All, Status::All);
    assert!(p.is_empty());
    assert_eq!(total, 0);
    assert!(reg.get_case_by_id(1).is_none());
}

#[test]
fn storable_rejects_wildcards() {
    assert!(record("a", "", Category::Scam, Status::New).is_storable());
    assert!(!record("a", "", Category::All, Status::New).is_storable());
    assert!(!record("a", "", Category::Scam, Status::All).is_storable());
}

#[test]
fn identity_comparison_is_bytewise() {
    let a = account(1);
    let mut bytes = [1u8; 32];
    assert!(a.same_as(&AccountId(bytes)));
    bytes[31] = 2;
    assert!(!a.same_as(&AccountId(bytes)));
}
