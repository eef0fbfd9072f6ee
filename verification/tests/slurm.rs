//! What scontrol says of a job.

use jam::slurm::slurm::{
    check_job, check_nodes, collector_args, expand_nodelist, get_job_info, hostnames_query, is_empty_nodelist,
    job_query, nodes_summary, parse_scontrol_output, Admission, Allocation, CommandOutput, JobState, SlurmError,
};

#[test]
fn test_job_state_from_str() {
    assert_eq!(JobState::from("RUNNING"), JobState::Running);
    assert_eq!(JobState::from("R"), JobState::Running);
    assert_eq!(JobState::from("PENDING"), JobState::Pending);
    assert_eq!(JobState::from("COMPLETED"), JobState::Completed);
    assert!(matches!(JobState::from("WEIRD"), JobState::Unknown(_)));
}

#[test]
fn test_job_state_is_running() {
    assert!(JobState::Running.is_running());
    assert!(JobState::Completing.is_running());
    assert!(!JobState::Pending.is_running());
    assert!(!JobState::Completed.is_running());
}

#[test]
fn test_job_state_is_finished() {
    assert!(JobState::Completed.is_finished());
    assert!(JobState::Cancelled.is_finished());
    assert!(JobState::Failed.is_finished());
    assert!(!JobState::Running.is_finished());
    assert!(!JobState::Pending.is_finished());
}

#[test]
fn test_parse_scontrol_output() {
    let output = "JobId=12345 JobName=test_job UserId=testuser(1000) GroupId=users(100) \
                  MCS_label=N/A Priority=4294901755 Nice=0 Account=default QOS=normal \
                  JobState=RUNNING Reason=None Dependency=(null) Requeue=1 Restarts=0 \
                  BatchFlag=1 Reboot=0 ExitCode=0:0 RunTime=00:10:00 TimeLimit=01:00:00 \
                  TimeMin=N/A SubmitTime=2024-01-01T10:00:00 EligibleTime=2024-01-01T10:00:00 \
                  AccrueTime=2024-01-01T10:00:00 StartTime=2024-01-01T10:00:00 \
                  EndTime=2024-01-01T11:00:00 Deadline=N/A SuspendTime=None \
                  SecsPreSuspend=0 LastSchedEval=2024-01-01T10:00:00 Scheduler=Main \
                  Partition=compute AllocNode:Sid=login:12345 ReqNodeList=(null) \
                  ExcNodeList=(null) NodeList=node[001-003] BatchHost=node001 \
                  NumNodes=3 NumCPUs=12 NumTasks=3 CPUs/Task=1 ReqB:S:C:T=0:0:*:*";

    let info = parse_scontrol_output(output, 12345).unwrap();
    assert_eq!(info.job_id, 12345);
    assert_eq!(info.name, "test_job");
    assert_eq!(info.state, JobState::Running);
    assert_eq!(info.user, "testuser");
    assert_eq!(info.nodelist, "node[001-003]");
    assert_eq!(info.num_nodes, 3);
    assert_eq!(info.partition, "compute");
}

#[test]
fn test_parse_scontrol_output_completed() {
    let output = "JobId=99999 JobName=finished_job UserId=user(1001) \
                  JobState=COMPLETED ExitCode=0:0 NodeList=node001 NumNodes=1 Partition=debug";

    let info = parse_scontrol_output(output, 99999).unwrap();
    assert_eq!(info.state, JobState::Completed);
    assert_eq!(info.exit_code, Some(0));
}

#[test]
fn test_parse_scontrol_output_failed() {
    let output = "JobId=88888 JobName=failed_job UserId=user(1001) \
                  JobState=FAILED ExitCode=1:0 NodeList=node002 NumNodes=1 Partition=debug";

    let info = parse_scontrol_output(output, 88888).unwrap();
    assert_eq!(info.state, JobState::Failed);
    assert_eq!(info.exit_code, Some(1));
}

fn said(success: bool, stdout: &str, stderr: &str) -> CommandOutput {
    CommandOutput { success, stdout: stdout.to_string(), stderr: stderr.to_string() }
}

#[test]
fn states_are_read_in_any_case() {
    let table = [
        ("pending", JobState::Pending),
        ("pd", JobState::Pending),
        ("Running", JobState::Running),
        ("suspended", JobState::Suspended),
        ("s", JobState::Suspended),
        ("completing", JobState::Completing),
        ("cg", JobState::Completing),
        ("cd", JobState::Completed),
        ("cancelled", JobState::Cancelled),
        ("ca", JobState::Cancelled),
        ("f", JobState::Failed),
        ("timeout", JobState::Timeout),
        ("to", JobState::Timeout),
        ("node_fail", JobState::NodeFail),
        ("nf", JobState::NodeFail),
        ("weird", JobState::Unknown("WEIRD".to_string())),
        ("stra\u{df}e", JobState::Unknown("STRASSE".to_string())),
        ("", JobState::Unknown("".to_string())),
    ];
    for (name, state) in table {
        assert_eq!(JobState::from(name), state);
    }
    assert_eq!(JobState::from_upper("R".to_string()), JobState::Running);
    assert_eq!(JobState::from_upper("r".to_string()), JobState::Unknown("r".to_string()));
}

#[test]
fn no_state_is_both_running_and_finished() {
    for name in ["PD", "R", "S", "CG", "CD", "CA", "F", "TO", "NF", "X"] {
        let state = JobState::from(name);
        assert!(!(state.is_running() && state.is_finished()));
    }
}

#[test]
fn what_is_missing_or_unreadable_has_a_default() {
    let info = parse_scontrol_output("\n\nJobId=x Name=a=b UserId=1000 NumNodes=many ExitCode=x:0 junk\nName=late", 7)
        .unwrap();
    assert_eq!(info.job_id, 7);
    assert_eq!(info.name, "a=b");
    assert_eq!(info.user, "1000");
    assert_eq!(info.num_nodes, 0);
    assert_eq!(info.exit_code, None);
    assert_eq!(info.state, JobState::Unknown("".to_string()));
    assert_eq!(info.nodelist, "");
    let info = parse_scontrol_output("Name=a JobName=b JobId=8 ExitCode=-1", 7).unwrap();
    assert_eq!(info.job_id, 8);
    assert_eq!(info.name, "b");
    assert_eq!(info.exit_code, Some(-1));
    assert_eq!(parse_scontrol_output("\n\n", 7).unwrap_err(), SlurmError::EmptyOutput);
}

#[test]
fn every_failure_has_its_words() {
    let e = get_job_info(5, &said(true, "", "")).unwrap_err();
    assert_eq!(e, SlurmError::EmptyOutput);
    assert_eq!(e.message(), "Empty scontrol output");
    for words in ["slurm_load_jobs error: Invalid job id specified", "job not found"] {
        let e = get_job_info(5, &said(false, "JobId=5", words)).unwrap_err();
        assert_eq!(e, SlurmError::JobNotFound(5));
        assert_eq!(e.message(), "Job 5 not found");
    }
    let e = get_job_info(5, &said(false, "", "timeout")).unwrap_err();
    assert_eq!(e, SlurmError::ScontrolFailed("timeout".to_string()));
    assert_eq!(e.message(), "scontrol failed: timeout");
    let e = expand_nodelist("c[1-", &said(false, "c1", "bad list")).unwrap_err();
    assert_eq!(e, SlurmError::ExpandFailed("c[1-".to_string(), "bad list".to_string()));
    assert_eq!(e.message(), "Failed to expand nodelist 'c[1-': bad list");
    assert_eq!(get_job_info(5, &said(true, "JobId=6", "not found")).unwrap().job_id, 6);
}

#[test]
fn nodelists_are_expanded() {
    assert_eq!(expand_nodelist("c[1-2]", &said(true, "c1\n\nc2\n", "")).unwrap(), vec!["c1", "c2"]);
    assert!(expand_nodelist("", &said(false, "", "bad")).unwrap().is_empty());
    assert!(expand_nodelist("(null)", &said(true, "c1", "")).unwrap().is_empty());
    assert!(is_empty_nodelist(""));
    assert!(is_empty_nodelist("(null)"));
    assert!(!is_empty_nodelist("null"));
}

#[test]
fn commands_have_their_arguments() {
    assert_eq!(job_query(42), vec!["show", "job", "42", "--oneliner"]);
    assert_eq!(hostnames_query("c[1-2]"), vec!["show", "hostnames", "c[1-2]"]);
    assert_eq!(
        collector_args(42, "c1", "/opt/jam", 500),
        vec![
            "--jobid", "42", "--overlap", "--nodelist", "c1", "--ntasks=1", "--", "/opt/jam",
            "--collector", "--node-name", "c1", "--refresh", "500",
        ]
    );
}

#[test]
fn jobs_are_admitted_while_they_run() {
    for (name, admission) in [
        ("RUNNING", Admission::Admitted),
        ("COMPLETING", Admission::Admitted),
        ("COMPLETED", Admission::Finished),
        ("TIMEOUT", Admission::Finished),
        ("PENDING", Admission::NotRunning),
        ("SUSPENDED", Admission::NotRunning),
        ("WEIRD", Admission::NotRunning),
    ] {
        let info = parse_scontrol_output(&format!("JobState={}", name), 1).unwrap();
        assert_eq!(check_job(&info), admission);
    }
}

#[test]
fn nodes_are_summarised() {
    let names = |n: usize| (1..=n).map(|i| format!("c{}", i)).collect::<Vec<String>>();
    assert_eq!(check_nodes(&names(0)), Allocation::Empty);
    assert_eq!(check_nodes(&names(100)), Allocation::Usual);
    assert_eq!(check_nodes(&names(101)), Allocation::Large);
    assert_eq!(nodes_summary(&names(0)), "");
    assert_eq!(nodes_summary(&names(2)), "c1, c2");
    assert_eq!(nodes_summary(&names(5)), "c1, c2, c3, c4, c5");
    assert_eq!(nodes_summary(&names(6)), "c1, c2, c3, c4, c5...");
}
