use qad::ci::job::constraint_matrix::ConstraintMatrix;
use qad::ci::job::dag::constraint_matrix::ConstraintMatrix as ConstraintTable;
use qad::ci::job::dag::{Constraint, DagError, Error, JobList};
use qad::ci::job::Job;

fn job(name: &str) -> Job {
    Job::long(name.to_string(), vec![], None, None)
}

fn cons(blocking: &str, blocked: &str) -> (String, String) {
    (blocking.to_string(), blocked.to_string())
}

fn complex_job_schedule() -> (Vec<Job>, Vec<(String, String)>) {
    let jobs = vec![job("deploy"), job("build1"), job("build2"), job("test1"), job("test2")];
    let constraints = vec![
        cons("build1", "test1"),
        cons("build1", "test2"),
        cons("build2", "test1"),
        cons("build2", "test2"),
        cons("test1", "deploy"),
        cons("test2", "deploy"),
    ];
    (jobs, constraints)
}

fn complex_matrix() -> Result<ConstraintMatrix, Error> {
    let list = complex_job_schedule();
    ConstraintMatrix::new(&list.0, &list.1)
}

fn show(list: &JobList) -> String {
    let mut handed: Vec<String> = list.to_vec();
    handed.reverse();
    format!("[{}]", handed.join(", "))
}

#[test]
pub fn constraint_matrix_fails_on_unknown_job_in_constraint() {
    let jobs = vec![job("build")];
    let constraints = vec![cons("build1", "test1")];
    let matrix = ConstraintMatrix::new(&jobs, &constraints);
    assert!(matches!(matrix, Err(Error::UnknownJobInConstraint(_))))
}

#[test]
pub fn constraint_matrix_fails_on_unknown_bad_constraint() {
    let jobs = vec![job("build")];
    let constraints = vec![cons("build", "build")];
    let matrix = ConstraintMatrix::new(&jobs, &constraints);
    assert!(matches!(matrix, Err(Error::JobCannotBlockItself(_))))
}

#[test]
pub fn constraint_matrix_list_all_blocking() {
    let pipeline = complex_matrix().unwrap();
    let mut vec: Vec<String> = pipeline.blocking("deploy").into_vec();
    vec.sort();
    let list = JobList::from(&vec);
    assert_eq!("[build1, build2, test1, test2]", show(&list))
}

#[test]
pub fn constraint_matrix_list_all_blocks() {
    let pipeline = complex_matrix().unwrap();
    let list = JobList::from(&pipeline.blocked_by("test1").into_vec());
    assert_eq!("[deploy]", show(&list))
}

#[test]
pub fn constraint_matrix_hands_out_last_first() {
    let pipeline = complex_matrix().unwrap();
    let mut blocking = pipeline.blocking("deploy");
    assert_eq!(Some("test2".to_string()), blocking.next());
    assert_eq!(Some("test1".to_string()), blocking.next());
    assert_eq!(Some("build2".to_string()), blocking.next());
    assert_eq!(Some("build1".to_string()), blocking.next());
    assert_eq!(None, blocking.next());
}

#[test]
pub fn check_direct_links() {
    let list = complex_job_schedule();
    let matrix = ConstraintTable::new(&list.0, &list.1).unwrap();
    assert!(matches!(matrix.constraint("build1", "build2").unwrap(), Constraint::Indifferent));
    assert!(matches!(matrix.constraint("build1", "test1").unwrap(), Constraint::Blocked(1)));
    assert!(matches!(matrix.constraint("build1", "build1").unwrap(), Constraint::Free))
}

#[test]
pub fn table_lists_blocking_in_order() {
    let list = complex_job_schedule();
    let matrix = ConstraintTable::new(&list.0, &list.1).unwrap();
    let vector: Vec<String> = matrix.blocking("deploy").into_vec();
    assert_eq!(r#"["build1", "build2", "test1", "test2"]"#, format!("{:?}", vector));
    let vector: Vec<String> = matrix.blocked_by("test1").into_vec();
    assert_eq!(r#"["deploy"]"#, format!("{:?}", vector));
}

#[test]
pub fn table_rejects_unknown_job() {
    let jobs = vec![job("build")];
    let constraints = vec![cons("build1", "test1")];
    assert!(matches!(ConstraintTable::new(&jobs, &constraints), Err(DagError::UnknownJobInConstraint(name)) if name == "build1"));
    let constraints = vec![cons("build", "build")];
    assert!(matches!(ConstraintTable::new(&jobs, &constraints), Err(DagError::JobCannotBlockItself(name)) if name == "build"));
}

#[test]
pub fn error_messages() {
    assert_eq!("job x is blocking itself", Error::JobCannotBlockItself("x".to_string()).message());
    assert_eq!("job y in constraint list doesn't exist", Error::UnknownJobInConstraint("y".to_string()).message());
    assert_eq!("a cycle exists in the job DAG because of z", Error::CycleExistsBecauseOf("z".to_string()).message());
}

#[test]
pub fn constraint_counts_blocks() {
    assert!(matches!(Constraint::Indifferent.constrain(), Ok(Constraint::Blocked(1))));
    assert!(matches!(Constraint::Blocked(2).constrain(), Ok(Constraint::Blocked(3))));
    assert!(Constraint::Free.constrain().is_err());
}

#[test]
pub fn list_gives_back_its_names_in_order() {
    let names = vec!["b".to_string(), "a".to_string(), "c".to_string()];
    let mut list = JobList::from(&names);
    assert_eq!(Some("b".to_string()), list.shift());
    assert_eq!(Some("a".to_string()), list.shift());
    assert_eq!(Some("c".to_string()), list.shift());
    assert!(list.is_empty());
    assert_eq!(None, list.shift());
    assert_eq!(None, list.shift());
    assert_eq!(names, vec!["b".to_string(), "a".to_string(), "c".to_string()]);
}
