use project::session::{
    DocumentTransaction, InternalDocumentModel, NumberCell, ReversibleDocumentTransaction, Session, TransactionArgs,
    TransactionError, TransactionOutput, TransactionState,
};

#[derive(Debug, Clone, PartialEq, Default)]
struct Words(Vec<String>);

#[derive(Debug, Clone, PartialEq, Hash)]
enum Edit {
    Push(String),
    Replace { old: String, new: String },
}

impl DocumentTransaction for Words {
    type Args = Edit;
    type Error = String;
    type Output = usize;

    fn apply(&mut self, args: &Edit) -> Result<usize, String> {
        self.apply_reversible(args).map(|(len, _)| len)
    }

    fn undo_history_name(args: &Edit) -> String {
        match args {
            Edit::Push(_) => "push".to_string(),
            Edit::Replace { .. } => "replace".to_string(),
        }
    }
}

impl ReversibleDocumentTransaction for Words {
    type UndoData = Vec<String>;

    fn apply_reversible(&mut self, args: &Edit) -> Result<(usize, Vec<String>), String> {
        let before = self.0.clone();
        match args {
            Edit::Push(w) => self.0.push(w.clone()),
            Edit::Replace { old, new } => {
                if self.0.last() != Some(old) {
                    return Err(format!("last word is not {old}"));
                }
                let last = self.0.len() - 1;
                self.0[last] = new.clone();
            }
        }
        Ok((self.0.len(), before))
    }

    fn undo(&mut self, undo_data: Vec<String>) {
        self.0 = undo_data;
    }
}

type Model = InternalDocumentModel<Words, Words, Words>;

fn words(list: &[&str]) -> Vec<String> {
    list.iter().map(|w| w.to_string()).collect()
}

fn push(w: &str) -> Edit {
    Edit::Push(w.to_string())
}

fn replace(old: &str, new: &str) -> Edit {
    Edit::Replace { old: old.to_string(), new: new.to_string() }
}

fn statuses(model: &Model) -> Vec<&'static str> {
    model
        .transaction_history
        .iter()
        .map(|e| match e.state {
            TransactionState::Applied(_) => "applied",
            TransactionState::Undone(_) => "undone",
            TransactionState::Failed(_) => "failed",
        })
        .collect()
}

#[test]
fn applied_transactions_are_recorded_per_session() {
    let mut model = Model::new(Words::default(), Words::default());
    let s1 = model.open_session();
    let s2 = model.open_session();
    assert_ne!(s1, s2);
    assert_eq!(model.apply_document(push("a"), s1), Ok(1));
    assert_eq!(model.apply_user(push("x"), s2), Ok(1));
    assert_eq!(model.document_data.0, words(&["a"]));
    assert_eq!(model.user_data.0, words(&["x"]));
    assert_eq!(model.transaction_history.len(), 2);
    assert_eq!(model.transaction_history[0].session, s1);
    assert_eq!(model.transaction_history[1].session, s2);
    assert_eq!(model.transaction_history[0].name, "push");
    assert_eq!(statuses(&model), vec!["applied", "applied"]);
}

#[test]
fn failed_transaction_leaves_history_unchanged() {
    let mut model = Model::new(Words::default(), Words::default());
    let s1 = model.open_session();
    assert!(model.apply_document(replace("a", "b"), s1).is_err());
    assert!(model.apply_user(replace("a", "b"), s1).is_err());
    assert!(model.transaction_history.is_empty());
    assert!(model.document_data.0.is_empty());
}

#[test]
fn undo_reapplies_later_transactions_of_other_sessions() {
    let mut model = Model::new(Words::default(), Words::default());
    let s1 = model.open_session();
    let s2 = model.open_session();
    model.apply_document(push("a"), s1).unwrap();
    model.apply_document(push("b"), s2).unwrap();
    model.apply_document(replace("b", "c"), s1).unwrap();
    assert_eq!(model.document_data.0, words(&["a", "c"]));

    // Session 2 takes back its push; the replace of session 1 no longer applies.
    model.undo(s2, 1);
    assert_eq!(model.document_data.0, words(&["a"]));
    assert_eq!(statuses(&model), vec!["applied", "undone", "failed"]);
    assert_eq!(model.undo_redo_list(s2), (words(&["push"]), 0));
    assert_eq!(model.undo_redo_list(s1), (words(&["push", "replace"]), 2));

    // Redo brings the push back, and the replace applies again after it.
    model.redo(s2, 1);
    assert_eq!(model.document_data.0, words(&["a", "c"]));
    assert_eq!(statuses(&model), vec!["applied", "applied", "applied"]);
    assert_eq!(model.undo_redo_list(s2), (words(&["push"]), 1));
}

#[test]
fn undo_leaves_other_data_sections_alone() {
    let mut model = Model::new(Words::default(), Words::default());
    let s1 = model.open_session();
    let s2 = model.open_session();
    model.apply_user(push("u"), s2).unwrap();
    model.apply_document(push("a"), s1).unwrap();
    model.apply_user(push("v"), s1).unwrap();
    // The user transaction of session 1 comes after the one undone by
    // session 2 and is taken back and applied again; the document
    // transaction is not touched.
    model.undo(s2, 1);
    assert_eq!(model.user_data.0, words(&["v"]));
    assert_eq!(model.document_data.0, words(&["a"]));
    assert_eq!(statuses(&model), vec!["undone", "applied", "applied"]);
}

#[test]
fn undo_more_than_available_undoes_all_of_the_session() {
    let mut model = Model::new(Words::default(), Words::default());
    let s1 = model.open_session();
    let s2 = model.open_session();
    model.apply_document(push("a"), s1).unwrap();
    model.apply_document(push("b"), s2).unwrap();
    model.apply_document(push("c"), s1).unwrap();
    model.undo(s1, 5);
    assert_eq!(statuses(&model), vec!["undone", "applied", "undone"]);
    assert_eq!(model.document_data.0, words(&["b"]));
    assert_eq!(model.undo_redo_list(s1), (words(&["push", "push"]), 0));

    // Redo of more than were undone brings all of them back, in order.
    model.redo(s1, 5);
    assert_eq!(statuses(&model), vec!["applied", "applied", "applied"]);
    assert_eq!(model.document_data.0, words(&["a", "b", "c"]));
}

#[test]
fn undo_and_redo_step_by_step() {
    let mut model = Model::new(Words::default(), Words::default());
    let s1 = model.open_session();
    model.apply_document(push("a"), s1).unwrap();
    model.apply_document(push("b"), s1).unwrap();
    model.apply_document(push("c"), s1).unwrap();
    model.undo(s1, 2);
    assert_eq!(model.document_data.0, words(&["a"]));
    assert_eq!(model.undo_redo_list(s1), (words(&["push", "push", "push"]), 1));
    model.redo(s1, 1);
    assert_eq!(model.document_data.0, words(&["a", "b"]));
    assert_eq!(model.undo_redo_list(s1), (words(&["push", "push", "push"]), 2));
    model.redo(s1, 1);
    assert_eq!(model.document_data.0, words(&["a", "b", "c"]));
    model.redo(s1, 1);
    assert_eq!(model.document_data.0, words(&["a", "b", "c"]));
    assert_eq!(statuses(&model), vec!["applied", "applied", "applied"]);
}

#[test]
fn undo_of_a_failed_transaction_marks_it_undone() {
    let mut model = Model::new(Words::default(), Words::default());
    let s1 = model.open_session();
    let s2 = model.open_session();
    model.apply_document(push("b"), s2).unwrap();
    model.apply_document(replace("b", "c"), s1).unwrap();
    model.undo(s2, 1);
    assert_eq!(statuses(&model), vec!["undone", "failed"]);
    model.undo(s1, 1);
    assert_eq!(statuses(&model), vec!["undone", "undone"]);
    assert!(model.document_data.0.is_empty());
}

#[test]
fn shared_data_lives_while_sessions_are_open() {
    let mut model = Model::new(Words::default(), Words::default());
    assert!(model.shared_data.is_none());
    let s1 = model.open_session();
    let s2 = model.open_session();
    assert_eq!(model.shared_data, Some(Words::default()));
    assert_eq!(model.apply_shared(&push("s"), s1), Ok(1));
    assert_eq!(model.shared_data, Some(Words(words(&["s"]))));
    assert!(model.transaction_history.is_empty());
    model.close_session(s1);
    assert_eq!(model.sessions, vec![s2]);
    assert_eq!(model.shared_data, Some(Words(words(&["s"]))));
    model.close_session(s2);
    assert!(model.sessions.is_empty());
    assert!(model.shared_data.is_none());
}

type Args = TransactionArgs<Words, Words, Words, Words>;

#[test]
fn sessions_apply_to_each_data_section() {
    let mut model = Model::new(Words::default(), Words::default());
    let mut s1: Session<Words> = Session::open(&mut model);
    let mut s2: Session<Words> = Session::open(&mut model);

    assert!(matches!(s1.apply(&mut model, Args::Document(push("d"))), Ok(TransactionOutput::Document(1))));
    assert!(matches!(s1.apply(&mut model, Args::User(push("u"))), Ok(TransactionOutput::User(1))));
    assert!(matches!(s1.apply(&mut model, Args::Session(push("s"))), Ok(TransactionOutput::Session(1))));
    assert!(matches!(s2.apply(&mut model, Args::Shared(push("x"))), Ok(TransactionOutput::Shared(1))));
    assert!(matches!(
        s2.apply(&mut model, Args::Document(replace("zz", "y"))),
        Err(TransactionError::Document(_))
    ));
    assert!(matches!(s2.apply(&mut model, Args::User(replace("zz", "y"))), Err(TransactionError::User(_))));
    assert!(matches!(s2.apply(&mut model, Args::Session(replace("zz", "y"))), Err(TransactionError::Session(_))));
    assert!(matches!(s2.apply(&mut model, Args::Shared(replace("zz", "y"))), Err(TransactionError::Shared(_))));

    // Session data is the session's own; the other sections are the document's.
    assert_eq!(s1.session_data.0, words(&["s"]));
    assert!(s2.session_data.0.is_empty());
    assert_eq!(model.document_data.0, words(&["d"]));
    assert_eq!(model.user_data.0, words(&["u"]));
    assert_eq!(model.shared_data, Some(Words(words(&["x"]))));
    // Only document and user transactions are recorded.
    assert_eq!(model.transaction_history.len(), 2);

    s1.undo(&mut model, 2);
    assert!(model.document_data.0.is_empty());
    assert!(model.user_data.0.is_empty());
    assert_eq!(s1.undo_redo_list(&model), (words(&["push", "push"]), 0));
    s1.redo(&mut model, 1);
    assert_eq!(model.document_data.0, words(&["d"]));
    assert_eq!(s1.undo_redo_list(&model), (words(&["push", "push"]), 1));

    s1.close(&mut model);
    assert!(model.shared_data.is_some());
    s2.close(&mut model);
    assert!(model.shared_data.is_none());
}

#[derive(Debug, Clone, PartialEq)]
struct TestSection {
    single_word: String,
    odd_number: i32,
}

impl Default for TestSection {
    fn default() -> Self {
        TestSection { single_word: "default".to_string(), odd_number: 1 }
    }
}

#[derive(Debug, Clone, PartialEq, Hash)]
enum TestTransaction {
    SetWord(String),
    SetNumber(i32),
}

impl DocumentTransaction for TestSection {
    type Args = TestTransaction;
    type Error = String;
    type Output = ();

    fn apply(&mut self, args: &TestTransaction) -> Result<(), String> {
        self.apply_reversible(args).map(|_| ())
    }

    fn undo_history_name(args: &TestTransaction) -> String {
        match args {
            TestTransaction::SetWord(word) => format!("Set word to {word}"),
            TestTransaction::SetNumber(number) => format!("Set number to {number}"),
        }
    }
}

impl ReversibleDocumentTransaction for TestSection {
    type UndoData = (String, i32);

    fn apply_reversible(&mut self, args: &TestTransaction) -> Result<((), (String, i32)), String> {
        let before = (self.single_word.clone(), self.odd_number);
        match args {
            TestTransaction::SetWord(word) => {
                if word.contains(' ') {
                    return Err("not a single word".to_string());
                }
                self.single_word = word.clone();
            }
            TestTransaction::SetNumber(number) => {
                if number % 2 == 0 {
                    return Err("not an odd number".to_string());
                }
                self.odd_number = *number;
            }
        }
        Ok(((), before))
    }

    fn undo(&mut self, undo_data: (String, i32)) {
        self.single_word = undo_data.0;
        self.odd_number = undo_data.1;
    }
}

#[test]
fn test_failed_transaction() {
    type TestArgs = TransactionArgs<TestSection, TestSection, TestSection, TestSection>;
    let mut model: InternalDocumentModel<TestSection, TestSection, TestSection> =
        InternalDocumentModel::new(TestSection::default(), TestSection::default());
    {
        let mut session1: Session<TestSection> = Session::open(&mut model);
        let session2: Session<TestSection> = Session::open(&mut model);

        // Backup the state of the sessions and the document before applying the transactions.
        let session1_snapshot_pre = session1.snapshot(&model);
        let session2_snapshot_pre = session2.snapshot(&model);
        let tmp_session: Session<TestSection> = Session::open(&mut model);
        let tmp_session_snapshot_pre = tmp_session.snapshot(&model);

        // Apply 4 invalid transactions, one for each data section.
        let transaction = TestTransaction::SetWord("Test Test".to_string());
        assert!(session1.apply(&mut model, TestArgs::Document(transaction.clone())).is_err());
        assert!(session1.apply(&mut model, TestArgs::User(transaction.clone())).is_err());
        assert!(session1.apply(&mut model, TestArgs::Session(transaction.clone())).is_err());
        assert!(session1.apply(&mut model, TestArgs::Shared(transaction)).is_err());

        // Verify that all the states are the same as before.
        let session1_snapshot_post = session1.snapshot(&model);
        let session2_snapshot_post = session2.snapshot(&model);
        let tmp_session_snapshot_post = tmp_session.snapshot(&model);
        assert_eq!(session1_snapshot_pre, session1_snapshot_post, "Session 1 state should not have changed");
        assert_eq!(session2_snapshot_pre, session2_snapshot_post, "Session 2 state should not have changed");
        assert_eq!(tmp_session_snapshot_pre, tmp_session_snapshot_post, "Document state should not have changed");
        assert!(model.transaction_history.is_empty());

        session1.close(&mut model);
        session2.close(&mut model);
        tmp_session.close(&mut model);
    }
    {
        let doc: Session<TestSection> = Session::open(&mut model);
        assert_eq!(doc.snapshot(&model).session.odd_number, 1, "User state should be reset after closing all sessions");
        assert_eq!(model.shared_data, Some(TestSection::default()));
    }
}

#[test]
fn undo_of_zero_transactions_changes_nothing() {
    let mut model = Model::new(Words::default(), Words::default());
    let s1 = model.open_session();
    model.apply_document(push("a"), s1).unwrap();
    model.undo(s1, 0);
    assert_eq!(model.document_data.0, words(&["a"]));
    assert_eq!(statuses(&model), vec!["applied"]);
    assert_eq!(model.undo_redo_list(s1), (words(&["push"]), 1));
}

#[test]
fn undo_redo_list_after_apply_undo_apply() {
    let mut model = Model::new(Words::default(), Words::default());
    let s1 = model.open_session();
    model.apply_document(push("x"), s1).unwrap();
    model.undo(s1, 1);
    model.apply_document(push("y"), s1).unwrap();
    assert_eq!(model.document_data.0, words(&["y"]));
    assert_eq!(statuses(&model), vec!["undone", "applied"]);
    assert_eq!(model.undo_redo_list(s1), (words(&["push", "push"]), 2));
}

#[test]
fn redo_after_undo_restores_the_data() {
    let mut model = Model::new(Words::default(), Words::default());
    let s1 = model.open_session();
    model.apply_document(push("a"), s1).unwrap();
    model.apply_document(push("b"), s1).unwrap();
    model.apply_user(push("u"), s1).unwrap();
    model.undo(s1, 3);
    assert!(model.document_data.0.is_empty());
    assert!(model.user_data.0.is_empty());
    model.redo(s1, 3);
    assert_eq!(model.document_data.0, words(&["a", "b"]));
    assert_eq!(model.user_data.0, words(&["u"]));
    assert_eq!(statuses(&model), vec!["applied", "applied", "applied"]);
}

#[test]
fn number_cells_undo_and_redo() {
    let mut model: InternalDocumentModel<NumberCell, NumberCell, NumberCell> =
        InternalDocumentModel::new(NumberCell::default(), NumberCell { value: 5 });
    let s1 = model.open_session();
    assert_eq!(model.apply_document(3, s1), Ok(1));
    assert_eq!(model.apply_document(7, s1), Ok(3));
    assert_eq!(model.apply_user(9, s1), Ok(5));
    assert_eq!(model.apply_document(4, s1), Err(4));
    assert_eq!(model.document_data.value, 7);
    model.undo(s1, 2);
    assert_eq!(model.document_data.value, 3);
    assert_eq!(model.user_data.value, 5);
    model.redo(s1, 2);
    assert_eq!(model.document_data.value, 7);
    assert_eq!(model.user_data.value, 9);
    assert_eq!(model.undo_redo_list(s1), (vec!["set".to_string(); 3], 3));
}

type SectionModel = InternalDocumentModel<TestSection, TestSection, TestSection>;
type SectionArgs = TransactionArgs<TestSection, TestSection, TestSection, TestSection>;

fn set_word(word: &str) -> TestTransaction {
    TestTransaction::SetWord(word.to_string())
}

#[test]
fn test_document_persistent_data() {
    let mut model: SectionModel = InternalDocumentModel::new(TestSection::default(), TestSection::default());
    {
        let mut data: Session<TestSection> = Session::open(&mut model);
        assert!(data.apply(&mut model, SectionArgs::Document(set_word("Test"))).is_ok());
        assert!(data.apply(&mut model, SectionArgs::User(set_word("Test"))).is_ok());
        assert!(data.apply(&mut model, SectionArgs::Session(set_word("Test"))).is_ok());
        assert!(data.apply(&mut model, SectionArgs::Shared(set_word("Test"))).is_ok());
        data.close(&mut model);
    }
    {
        let data: Session<TestSection> = Session::open(&mut model);
        let snapshot = data.snapshot(&model);
        assert_eq!(snapshot.document.single_word, "Test", "Persistent data should be shared");
        assert_eq!(snapshot.user.single_word, "Test", "User data should be shared");
        assert_eq!(snapshot.shared.single_word, "default", "User state should not be shared");
    }
}

#[test]
fn test_shared_state() {
    let mut model: SectionModel = InternalDocumentModel::new(TestSection::default(), TestSection::default());
    let mut session1: Session<TestSection> = Session::open(&mut model);
    let session2: Session<TestSection> = Session::open(&mut model);
    assert!(session1.apply(&mut model, SectionArgs::Shared(set_word("Test"))).is_ok());
    assert_eq!(
        session2.snapshot(&model).shared.single_word,
        "Test",
        "Shared state should be applied to all already open sessions"
    );
    let session3: Session<TestSection> = Session::open(&mut model);
    assert_eq!(session3.snapshot(&model).shared.single_word, "Test", "Shared state should be shared with new sessions");
}

#[test]
fn test_reset_of_shared_state() {
    let mut model: SectionModel = InternalDocumentModel::new(TestSection::default(), TestSection::default());
    {
        let mut session1: Session<TestSection> = Session::open(&mut model);
        assert!(session1.apply(&mut model, SectionArgs::Shared(set_word("Test"))).is_ok());
        assert_eq!(session1.snapshot(&model).shared.single_word, "Test", "Shared state should be shared");
        session1.close(&mut model);
    }
    {
        let data: Session<TestSection> = Session::open(&mut model);
        assert_eq!(
            data.snapshot(&model).shared.single_word,
            "default",
            "Shared state should be reset after closing all sessions"
        );
    }
}

#[test]
fn test_user_state() {
    let mut model: SectionModel = InternalDocumentModel::new(TestSection::default(), TestSection::default());
    {
        let mut session1: Session<TestSection> = Session::open(&mut model);
        assert!(session1.apply(&mut model, SectionArgs::Session(set_word("Test"))).is_ok());
        let session2: Session<TestSection> = Session::open(&mut model);
        assert_eq!(session2.snapshot(&model).session.single_word, "default", "User state should not be shared");
        session1.close(&mut model);
        session2.close(&mut model);
    }
    {
        let data: Session<TestSection> = Session::open(&mut model);
        assert_eq!(
            data.snapshot(&model).session.single_word,
            "default",
            "User state should be reset after closing all sessions"
        );
    }
}
