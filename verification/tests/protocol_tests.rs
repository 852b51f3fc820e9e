//! The whole protocol run in-process: one dealer, one router and one
//! driver per party, with plain queues standing in for the network. The
//! loop delivers messages until every node returns its result or aborts.

use std::collections::VecDeque;

use priv_ins::expressions::{BinaryOp, Expression};
use priv_ins::field::Fp;
use priv_ins::protocol::dealer::TrustedDealer;
use priv_ins::protocol::expression::{decorate_expression, DecoratedExpression, MidEvalExpression};
use priv_ins::protocol::network::{clone_msg, Msg};
use priv_ins::protocol::node::{Node, NodeState};
use priv_ins::protocol::party::{DealerDispatch, Party, PartyAction};
use priv_ins::protocol::{elem_map, owner_map, Alpha, NodeEvents};

const PHASE_EVAL: u8 = 0;
const PHASE_AWAIT_AUDIT: u8 = 1;
const PHASE_AWAIT_VALID: u8 = 2;
const PHASE_AWAIT_OPEN: u8 = 3;
const PHASE_AWAIT_FINAL_COMMIT: u8 = 4;
const PHASE_AWAIT_FINAL_PROOFS: u8 = 5;
const PHASE_AWAIT_FINAL_VALID: u8 = 6;
const PHASE_DONE: u8 = 7;
const PHASE_ABORTED: u8 = 8;

struct Sim {
    n: u64,
    dealer: TrustedDealer,
    parties: Vec<Party>,
    nodes: Vec<Node>,
    decorated: Vec<DecoratedExpression>,
    schedules: Vec<Vec<MidEvalExpression>>,
    last_id: String,
    idx: Vec<usize>,
    states: Vec<Option<NodeState>>,
    phases: Vec<u8>,
    checked: Vec<Vec<String>>,
    results: Vec<Option<u64>>,
    aborts: Vec<Option<String>>,
    node_inbox: Vec<VecDeque<NodeEvents>>,
    net_inbox: Vec<VecDeque<(u64, Msg)>>,
    alphas: Vec<Option<Fp>>,
    // when set, this party's first opened share is altered in transit
    tamper_sender: Option<u64>,
    tampered: bool,
}

impl Sim {
    fn new(
        n_parties: u64,
        variable_values: Vec<Vec<(String, u64)>>,
        build_expr: &dyn Fn() -> Expression,
    ) -> Sim {
        let mut owners: Vec<(String, u64)> = Vec::new();
        for (i, vars) in variable_values.iter().enumerate() {
            for (name, _) in vars {
                owners.push((name.clone(), i as u64));
            }
        }
        let mut schedules = Vec::new();
        let mut decorated_trees = Vec::new();
        let mut nodes = Vec::new();
        let mut parties = Vec::new();
        let mut last_id = String::new();
        for i in 0..n_parties {
            let mut provider =
                priv_ins::protocol::Provider::new(0, owner_map(owners.clone()));
            let decorated = decorate_expression(build_expr(), &mut provider).unwrap();
            let mut my_vars: Vec<(String, Fp)> = Vec::new();
            for (cir_id, var_name) in decorated.self_var_ids(Some(i)) {
                let value = variable_values[i as usize]
                    .iter()
                    .find(|(n, _)| *n == var_name)
                    .map(|(_, v)| *v)
                    .unwrap();
                my_vars.push((cir_id, Fp::from_u64(value)));
            }
            let node = Node::new(i, elem_map(my_vars));
            let schedule = {
                let mut p2 =
                    priv_ins::protocol::Provider::new(0, owner_map(owners.clone()));
                decorate_expression(build_expr(), &mut p2)
                    .unwrap()
                    .into_ordered()
            };
            last_id = schedule.last().unwrap().cir_id();
            decorated_trees.push(decorated);
            schedules.push(schedule);
            nodes.push(node);
            parties.push(Party::new(i, n_parties as u8));
        }
        Sim {
            n: n_parties,
            dealer: TrustedDealer::new(n_parties as u8),
            parties,
            nodes,
            decorated: decorated_trees,
            schedules,
            last_id,
            idx: vec![0; n_parties as usize],
            states: (0..n_parties).map(|_| Some(NodeState::Proceed)).collect(),
            phases: vec![PHASE_EVAL; n_parties as usize],
            checked: vec![Vec::new(); n_parties as usize],
            results: vec![None; n_parties as usize],
            aborts: vec![None; n_parties as usize],
            node_inbox: (0..n_parties).map(|_| VecDeque::new()).collect(),
            net_inbox: (0..n_parties).map(|_| VecDeque::new()).collect(),
            alphas: vec![None; n_parties as usize],
            tamper_sender: None,
            tampered: false,
        }
    }

    fn dispatch(&mut self, from: u64, cmds: Vec<priv_ins::protocol::NodeCommands>) {
        for cmd in cmds {
            match self.parties[from as usize].handle_node_command(cmd) {
                PartyAction::Broadcast(msg) => {
                    let msg = self.maybe_tamper(from, msg);
                    for q in 0..self.n {
                        self.net_inbox[q as usize].push_back((from, clone_msg(&msg)));
                    }
                }
                PartyAction::ToDealer(id, dc) => {
                    let events = self.dealer.handle_command(id, dc);
                    for (rec, dev) in events {
                        match self.parties[rec as usize].handle_dealer_event(dev) {
                            DealerDispatch::Event(ev) => {
                                self.node_inbox[rec as usize].push_back(ev)
                            }
                            DealerDispatch::Key(Alpha(a)) => {
                                self.alphas[rec as usize] = Some(a)
                            }
                        }
                    }
                }
            }
        }
    }

    fn maybe_tamper(&mut self, from: u64, msg: Msg) -> Msg {
        if self.tamper_sender == Some(from) && !self.tampered {
            if let Msg::OpenShare(cid, share) = msg {
                self.tampered = true;
                return Msg::OpenShare(cid, (share.0.add(Fp::from_u64(1)), share.1));
            } else {
                return msg;
            }
        }
        msg
    }

    fn pump(&mut self) -> bool {
        let mut moved = false;
        loop {
            let mut any = false;
            for i in 0..self.n as usize {
                while let Some((from, msg)) = self.net_inbox[i].pop_front() {
                    let events = self.parties[i].handle_network_msg(from, msg);
                    for ev in events {
                        self.node_inbox[i].push_back(ev);
                    }
                    any = true;
                }
                while let Some(ev) = self.node_inbox[i].pop_front() {
                    let cmds = self.nodes[i].handle_event(ev);
                    self.dispatch(i as u64, cmds);
                    any = true;
                }
            }
            if !any {
                break;
            }
            moved = true;
        }
        moved
    }

    fn advance(&mut self, i: usize) -> bool {
        match self.phases[i] {
            PHASE_EVAL => {
                let state = self.states[i].take().unwrap();
                let st = self.nodes[i].state_transition(state);
                if self.nodes[i].can_proceed(&st) {
                    if self.idx[i] == self.schedules[i].len() {
                        self.states[i] = Some(st);
                        let cmds = self.nodes[i].proofs_to_send();
                        self.dispatch(i as u64, cmds);
                        self.phases[i] = PHASE_AWAIT_AUDIT;
                        return true;
                    }
                    let step_state = self.nodes[i].try_proceed(&self.schedules[i][self.idx[i]]);
                    self.idx[i] += 1;
                    self.states[i] = Some(step_state);
                    return true;
                }
                let (cmds, st2) = self.nodes[i].try_proceed_with_mul(st);
                let emitted = !cmds.is_empty();
                self.dispatch(i as u64, cmds);
                self.states[i] = Some(st2);
                emitted
            }
            PHASE_AWAIT_AUDIT => {
                if !self.nodes[i].audit_ready() {
                    return false;
                }
                let (cmds, verdict) = self.nodes[i].check_proofs();
                self.dispatch(i as u64, cmds);
                match verdict {
                    Ok(ids) => {
                        self.checked[i] = ids;
                        self.phases[i] = PHASE_AWAIT_VALID;
                    }
                    Err(cid) => {
                        self.aborts[i] = Some(cid);
                        self.phases[i] = PHASE_ABORTED;
                    }
                }
                true
            }
            PHASE_AWAIT_VALID => {
                if self.nodes[i].saw_invalid() {
                    self.aborts[i] = Some("audit".to_string());
                    self.phases[i] = PHASE_ABORTED;
                    return true;
                }
                if !self.nodes[i].all_valid(&self.checked[i]) {
                    return false;
                }
                let cmds = self.nodes[i].open_final(&self.last_id);
                self.dispatch(i as u64, cmds);
                self.phases[i] = PHASE_AWAIT_OPEN;
                true
            }
            PHASE_AWAIT_OPEN => {
                if !self.nodes[i].has_fully_open(&self.last_id) {
                    return false;
                }
                let (cmds, result) = self.nodes[i].compute_final(&self.last_id);
                self.results[i] = result;
                self.dispatch(i as u64, cmds);
                self.phases[i] = PHASE_AWAIT_FINAL_COMMIT;
                true
            }
            PHASE_AWAIT_FINAL_COMMIT => {
                if !self.nodes[i].has_commitments(&self.last_id) {
                    return false;
                }
                let cmds = self.nodes[i].proofs_to_send();
                self.dispatch(i as u64, cmds);
                self.phases[i] = PHASE_AWAIT_FINAL_PROOFS;
                true
            }
            PHASE_AWAIT_FINAL_PROOFS => {
                if !self.nodes[i].audit_ready() {
                    return false;
                }
                let (cmds, verdict) = self.nodes[i].check_proofs();
                self.dispatch(i as u64, cmds);
                match verdict {
                    Ok(_) => self.phases[i] = PHASE_AWAIT_FINAL_VALID,
                    Err(cid) => {
                        self.aborts[i] = Some(cid);
                        self.phases[i] = PHASE_ABORTED;
                    }
                }
                true
            }
            PHASE_AWAIT_FINAL_VALID => {
                if self.nodes[i].saw_invalid() {
                    self.aborts[i] = Some("audit".to_string());
                    self.phases[i] = PHASE_ABORTED;
                    return true;
                }
                if !self.nodes[i].all_valid(&vec![self.last_id.clone()]) {
                    return false;
                }
                self.phases[i] = PHASE_DONE;
                true
            }
            _ => false,
        }
    }

    fn run(&mut self) {
        // startup: every node announces its needs, then installs alpha
        for i in 0..self.n as usize {
            let cmds = self.nodes[i].startup_commands(&self.decorated[i]);
            self.dispatch(i as u64, cmds);
        }
        // the dealer answers synchronously, so every key share is here;
        // queued events wait until the key is installed, as the node does
        for i in 0..self.n as usize {
            let a = self.alphas[i].take().expect("alpha should have been dealt");
            self.nodes[i].set_alpha(a);
        }
        let mut rounds = 0;
        loop {
            let pumped = self.pump();
            let mut progressed = false;
            for i in 0..self.n as usize {
                if self.phases[i] != PHASE_DONE && self.phases[i] != PHASE_ABORTED {
                    progressed |= self.advance(i);
                }
            }
            if self
                .phases
                .iter()
                .all(|p| *p == PHASE_DONE || *p == PHASE_ABORTED)
            {
                break;
            }
            if !pumped && !progressed {
                panic!("simulation stalled: phases {:?}", self.phases);
            }
            rounds += 1;
            if rounds > 100_000 {
                panic!("simulation did not settle");
            }
        }
    }
}

fn two_var_product() -> Expression {
    Expression::BinOp {
        left: Box::new(Expression::Variable {
            name: "0".to_string(),
        }),
        right: Box::new(Expression::Variable {
            name: "1".to_string(),
        }),
        op: BinaryOp::Mul,
    }
}

fn big_expression() -> Expression {
    let mut acc = Expression::Number { number: 10 };
    for v in 0..4 {
        acc = Expression::BinOp {
            left: Box::new(acc),
            right: Box::new(Expression::Variable {
                name: v.to_string(),
            }),
            op: BinaryOp::Mul,
        };
    }
    Expression::BinOp {
        left: Box::new(acc),
        right: Box::new(Expression::Variable {
            name: "4".to_string(),
        }),
        op: BinaryOp::Add,
    }
}

fn values(n: u64) -> Vec<Vec<(String, u64)>> {
    (0..n).map(|i| vec![(i.to_string(), i + 5)]).collect()
}

#[test]
fn test_expression_small() {
    let mut sim = Sim::new(2, values(2), &two_var_product);
    sim.run();
    let expected_result = 5 * 6;
    for i in 0..2 {
        assert_eq!(Some(expected_result), sim.results[i]);
        assert_eq!(PHASE_DONE, sim.phases[i]);
    }
}

#[test]
fn test_more_parties_then_variables() {
    // parties 2 and 3 contribute no input but take part in every opening
    let mut vals = values(2);
    vals.push(Vec::new());
    vals.push(Vec::new());
    let mut sim = Sim::new(4, vals, &two_var_product);
    sim.run();
    let expected_result = 5 * 6;
    for i in 0..4 {
        assert_eq!(Some(expected_result), sim.results[i]);
        assert_eq!(PHASE_DONE, sim.phases[i]);
    }
}

#[test]
fn test_expression_big() {
    let mut sim = Sim::new(5, values(5), &big_expression);
    sim.run();
    let expected_result = 10 * 5 * 6 * 7 * 8 + 9;
    for i in 0..5 {
        assert_eq!(Some(expected_result), sim.results[i]);
        assert_eq!(PHASE_DONE, sim.phases[i]);
    }
}

#[test]
fn tampered_open_share_aborts_all_parties() {
    // one party adds 1 to a broadcast opened share: the MAC zero-sum
    // check fails and every party aborts with the same circuit node
    let mut sim = Sim::new(3, values(3), &|| Expression::BinOp {
        left: Box::new(Expression::Variable {
            name: "0".to_string(),
        }),
        right: Box::new(Expression::Variable {
            name: "1".to_string(),
        }),
        op: BinaryOp::Mul,
    });
    sim.tamper_sender = Some(1);
    sim.run();
    let mut cids = Vec::new();
    for i in 0..3 {
        assert_eq!(PHASE_ABORTED, sim.phases[i]);
        let cid = sim.aborts[i].clone().expect("every party must abort");
        assert_ne!("audit", cid);
        cids.push(cid);
    }
    assert_eq!(cids[0], cids[1]);
    assert_eq!(cids[1], cids[2]);
}
