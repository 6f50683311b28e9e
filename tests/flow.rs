use rs_taskflow::flow::Flow;
use rs_taskflow::task::{ExecutableTask, TaskInputHandle};
use rs_taskflow::visit::GraphError;

/// The values that move through ports in these tests.
#[derive(Clone, Debug, PartialEq)]
enum Val {
    I32(i32),
    U8(u8),
    I64(i64),
    Trace(String),
}

/// The task kinds of these tests.
#[derive(Clone, Debug)]
enum Job {
    /// outputs its two fixed values
    Const(i32, u8),
    /// outputs its input
    Forward,
    /// outputs the sum of an `i32` and a `u8` as an `i64`
    Add,
    /// outputs its name after the traces it received
    Named(char),
}

impl ExecutableTask<Val> for Job {
    fn exec(&mut self, inputs: &Vec<Option<&Val>>) -> Vec<Val> {
        match self {
            Job::Const(a, b) => vec![Val::I32(*a), Val::U8(*b)],
            Job::Forward => vec![inputs[0].unwrap().clone()],
            Job::Add => match (inputs[0], inputs[1]) {
                (Some(Val::I32(x)), Some(Val::U8(y))) => vec![Val::I64(*x as i64 + *y as i64)],
                _ => panic!("unexpected inputs"),
            },
            Job::Named(name) => {
                let mut s = String::new();
                for input in inputs.iter() {
                    if let Some(Val::Trace(t)) = input {
                        s.push_str(t);
                    }
                }
                s.push(*name);
                vec![Val::Trace(s.clone()), Val::Trace(s)]
            }
        }
    }
}

#[test]
fn flow_test_main() {
    let mut flow = Flow::new();

    let input_task_handle = flow.add_new_task(Job::Const(42, 8));
    let task1_handle = flow.add_new_task(Job::Forward);
    let task2_handle = flow.add_new_task(Job::Forward);
    let last_task_handle = flow.add_new_task(Job::Add);

    flow.connect_output0_to_input0(&input_task_handle, &task1_handle);
    flow.connect_output1_to_input0(&input_task_handle, &task2_handle);
    flow.connect_output0_to_input0(&task1_handle, &last_task_handle);
    flow.connect_output0_to_input1(&task2_handle, &last_task_handle);

    let flow_exec = flow.execute::<Val>().unwrap();

    let result = flow_exec.get_task_output0(&last_task_handle);
    println!("result: {:?}", result.unwrap());
    assert_eq!(*result.unwrap(), Val::I64(50));
}

#[test]
fn multiflow_test_main() {
    let mut flow = Flow::new();

    let input_task_handle = flow.add_new_task(Job::Const(42, 8));
    let task1_handle = flow.add_new_task(Job::Forward);
    let task2_handle = flow.add_new_task(Job::Forward);
    let last_task_handle = flow.add_new_task(Job::Add);

    flow.connect_output0_to_input0(&input_task_handle, &task1_handle);
    flow.connect_output1_to_input0(&input_task_handle, &task2_handle);
    flow.connect_output0_to_input0(&task1_handle, &last_task_handle);
    flow.connect_output0_to_input1(&task2_handle, &last_task_handle);

    let flow_exec1 = flow.execute::<Val>().unwrap();

    *flow.get_mut_task(&input_task_handle) = Job::Const(20, 10);
    let flow_exec2 = flow.execute::<Val>().unwrap();

    let result = flow_exec1.get_task_output0(&last_task_handle);
    println!("first execution result: {:?}", result.unwrap());
    assert_eq!(*result.unwrap(), Val::I64(50));

    let result = flow_exec2.get_task_output0(&last_task_handle);
    println!("second execution result: {:?}", result.unwrap());
    assert_eq!(*result.unwrap(), Val::I64(30));
}

/*
                A     B
               / \    |
              C   D   E
              |\ / \ /
              | F   G
              |/   / \
              H   I   J
               \  |  /
                \ | /
                 \|/
                  K
*/
#[test]
fn full_example_test_main() {
    let mut flow = Flow::new();

    let task_a = flow.add_new_task(Job::Named('A'));
    let task_b = flow.add_new_task(Job::Named('B'));
    let task_c = flow.add_new_task(Job::Named('C'));
    let task_d = flow.add_new_task(Job::Named('D'));
    let task_e = flow.add_new_task(Job::Named('E'));
    let task_f = flow.add_new_task(Job::Named('F'));
    let task_g = flow.add_new_task(Job::Named('G'));
    let task_h = flow.add_new_task(Job::Named('H'));
    let task_i = flow.add_new_task(Job::Named('I'));
    let task_j = flow.add_new_task(Job::Named('J'));
    let task_k = flow.add_new_task(Job::Named('K'));

    flow.connect_output0_to_input0(&task_a, &task_c);
    flow.connect_output0_to_input0(&task_a, &task_d);
    flow.connect_output0_to_input0(&task_b, &task_e);
    flow.connect_output0_to_input0(&task_c, &task_h);
    flow.connect_output1_to_input0(&task_c, &task_f);
    flow.connect_output0_to_input1(&task_d, &task_f);
    flow.connect_output1_to_input0(&task_d, &task_g);
    flow.connect_output0_to_input1(&task_e, &task_g);
    flow.connect_output0_to_input1(&task_f, &task_h);
    flow.connect_output0_to_input1(&task_g, &task_i);
    flow.connect_output1_to_input0(&task_g, &task_i);
    flow.connect_output0_to_input1(&task_g, &task_j);
    flow.connect_output1_to_input0(&task_g, &task_j);
    flow.connect(&task_h, 0, &task_k, 3);
    flow.connect(&task_h, 1, &task_k, 2);
    flow.connect_output0_to_input1(&task_i, &task_k);
    flow.connect_output0_to_input0(&task_j, &task_k);

    let flow_exec = flow.execute::<Val>().unwrap();

    for id in 0..flow.get_num_tasks() {
        assert!(flow_exec.is_completed(id));
    }
    let result = flow_exec.get_task_output0(&task_k);
    println!("result: {:?}", result.unwrap());
    // K read J, I, H, H in that port order: J and I saw G's trace twice
    let g = "ADBEG";
    let h = "ACACADF".to_string() + "H";
    let expected = format!("{g}{g}J{g}{g}I{h}{h}K");
    assert_eq!(*result.unwrap(), Val::Trace(expected));
}

#[test]
fn execute_reports_cycle() {
    let mut flow = Flow::new();
    let a = flow.add_new_task(Job::Const(1, 1));
    let b = flow.add_new_task(Job::Forward);
    let c = flow.add_new_task(Job::Forward);
    flow.connect_output0_to_input0(&a, &b);
    flow.connect_output0_to_input0(&b, &c);
    flow.connect_output0_to_input0(&c, &b);
    assert!(matches!(flow.execute::<Val>(), Err(GraphError::CycleDetected)));
}

#[test]
fn execute_reports_cycle_that_no_root_reaches() {
    let mut flow = Flow::new();
    let _a = flow.add_new_task(Job::Const(1, 1));
    let b = flow.new_task(Job::Forward);
    let c = flow.new_task(Job::Forward);
    flow.connect_output0_to_input0(&b, &c);
    flow.connect_output0_to_input0(&c, &b);
    assert!(matches!(flow.execute::<Val>(), Err(GraphError::CycleDetected)));
    assert!(matches!(flow.new_execution::<Val>(), Err(GraphError::CycleDetected)));
}

#[test]
fn replace_task_swaps_the_run_copy() {
    let mut flow = Flow::new();
    let a = flow.add_new_task(Job::Named('A'));
    let mut exec = flow.new_execution::<Val>().unwrap();
    let old = exec.replace_task(a.id(), Job::Named('Z'));
    assert!(matches!(old, Job::Named('A')));
    assert!(matches!(exec.get_task(&a), Job::Named('Z')));
    assert!(matches!(flow.get_task(&a), Job::Named('A')));
}

#[test]
fn execute_reports_no_roots() {
    let mut flow = Flow::new();
    let a = flow.add_new_task(Job::Forward);
    let b = flow.add_new_task(Job::Forward);
    flow.connect_output0_to_input0(&a, &b);
    flow.connect_output0_to_input0(&b, &a);
    assert!(matches!(flow.execute::<Val>(), Err(GraphError::NoRoots)));
}

#[test]
fn run_by_hand_waits_for_dependencies() {
    let mut flow = Flow::new();
    let a = flow.add_new_task(Job::Const(3, 4));
    let b = flow.add_new_task(Job::Forward);
    flow.connect_output1_to_input0(&a, &b);
    assert_eq!(flow.get_num_tasks(), 2);
    let mut exec = flow.new_execution::<Val>().unwrap();
    assert!(!exec.is_completed(a.id()) && !exec.is_completed(b.id()));
    assert_eq!(exec.get_task_output0(&b), None);
    // b must wait for a, and is registered to be resumed by it
    assert_eq!(exec.poll_node(b.id()), Some(a.id()));
    assert_eq!(exec.poll_node(a.id()), None);
    let woken = exec.run_node(a.id());
    assert_eq!(woken, vec![b.id()]);
    assert!(exec.is_completed(a.id()));
    assert_eq!(exec.get_task_output1(&a), Some(&Val::U8(4)));
    assert_eq!(exec.poll_node(b.id()), None);
    assert_eq!(exec.input_values(b.id()), vec![Some(&Val::U8(4))]);
    let woken = exec.run_node(b.id());
    assert!(woken.is_empty());
    assert_eq!(exec.get_task_output0(&b), Some(&Val::U8(4)));
    assert_eq!(exec.get_task_output(b.id(), 1), None);
    assert_eq!(exec.get_num_tasks(), 2);
}

#[test]
fn finish_node_records_outputs_and_wakes_waiters() {
    let mut flow = Flow::new();
    let a = flow.add_new_task(Job::Const(3, 4));
    let b = flow.add_new_task(Job::Forward);
    let c = flow.add_new_task(Job::Forward);
    flow.connect_output0_to_input0(&a, &b);
    flow.connect_output1_to_input0(&a, &c);
    let mut exec = flow.new_execution::<Val>().unwrap();
    assert_eq!(exec.poll_node(b.id()), Some(a.id()));
    assert_eq!(exec.poll_node(c.id()), Some(a.id()));
    let mut woken = exec.finish_node(a.id(), vec![Val::I32(7), Val::U8(9)]);
    woken.sort();
    assert_eq!(woken, vec![b.id(), c.id()]);
    assert_eq!(exec.input_values(c.id()), vec![Some(&Val::U8(9))]);
}

#[test]
fn input_handle_reads_the_producer_output() {
    let mut flow = Flow::new();
    let a = flow.add_new_task(Job::Const(5, 6));
    let exec = flow.execute::<Val>().unwrap();
    assert_eq!(TaskInputHandle::new(a.id(), 0).get_value(&exec), Some(&Val::I32(5)));
    assert_eq!(TaskInputHandle::new(a.id(), 1).get_value(&exec), Some(&Val::U8(6)));
    assert_eq!(TaskInputHandle::new(a.id(), 2).get_value(&exec), None);
}

#[test]
fn input_handle_records_its_source() {
    let mut h = TaskInputHandle::new(3, 1);
    assert_eq!((h.source(), h.port()), (3, 1));
    h.set(5, 0);
    assert_eq!((h.source(), h.port()), (5, 0));
}

#[test]
fn connect_to_a_later_port_leaves_earlier_ports_unbound() {
    let mut flow = Flow::new();
    let a = flow.add_new_task(Job::Named('A'));
    let b = flow.add_new_task(Job::Named('B'));
    flow.connect(&a, 0, &b, 2);
    let exec = flow.execute::<Val>().unwrap();
    assert_eq!(exec.get_task_output0(&b), Some(&Val::Trace("AB".to_string())));
    assert!(matches!(exec.get_task(&b), Job::Named('B')));
    assert!(matches!(flow.get_task(&a), Job::Named('A')));
    assert!(matches!(flow.get_task_by_id(1), Job::Named('B')));
}
