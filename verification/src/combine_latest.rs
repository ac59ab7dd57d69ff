use vstd::prelude::*;

use crate::combined::{
    combined_leads, is_combined_run, CombineInputs, CombineState, Combined, CombinedCall,
};
use crate::driver::DriverTurn;
use crate::hot::HotState;
use crate::poll::StreamPoll;

verus! {

/// The latest values of two inputs, and which of them have completed.
pub struct Inputs2<T1, T2> {
    pub latest1: Option<T1>,
    pub done1: bool,
    pub latest2: Option<T2>,
    pub done2: bool,
}

/// An item of one of two inputs.
pub enum Item2<T1, T2> {
    Input1(T1),
    Input2(T2),
}

impl<T1: Clone, T2: Clone> CombineInputs for Inputs2<T1, T2> {
    type Snapshot = (T1, T2);

    type Item = Item2<T1, T2>;

    open spec fn arity() -> nat {
        2
    }

    open spec fn index_of(item: Item2<T1, T2>) -> int {
        match item {
            Item2::Input1(_) => 0,
            Item2::Input2(_) => 1,
        }
    }

    open spec fn latest(self, index: int) -> Option<Item2<T1, T2>> {
        if index == 0 {
            match self.latest1 {
                Some(item) => Some(Item2::Input1(item)),
                None => None,
            }
        } else if index == 1 {
            match self.latest2 {
                Some(item) => Some(Item2::Input2(item)),
                None => None,
            }
        } else {
            None
        }
    }

    open spec fn is_done(self, index: int) -> bool {
        if index == 0 {
            self.done1
        } else if index == 1 {
            self.done2
        } else {
            true
        }
    }

    open spec fn with_item(self, item: Item2<T1, T2>) -> Self {
        match item {
            Item2::Input1(item) => Inputs2 { latest1: Some(item), ..self },
            Item2::Input2(item) => Inputs2 { latest2: Some(item), ..self },
        }
    }

    open spec fn with_end(self, index: int) -> Self {
        if index == 0 {
            Inputs2 { done1: true, ..self }
        } else if index == 1 {
            Inputs2 { done2: true, ..self }
        } else {
            self
        }
    }

    open spec fn shows(snapshot: (T1, T2), item: Item2<T1, T2>) -> bool {
        match item {
            Item2::Input1(item) => cloned(item, snapshot.0),
            Item2::Input2(item) => cloned(item, snapshot.1),
        }
    }

    open spec fn all_present(self) -> bool {
        &&& self.latest1 is Some
        &&& self.latest2 is Some
    }

    open spec fn is_over(self) -> bool {
        ||| self.done1 && self.latest1 is None
        ||| self.done2 && self.latest2 is None
        ||| self.done1 && self.done2
    }

    open spec fn is_snapshot(self, snapshot: (T1, T2)) -> bool {
        &&& self.latest1 is Some && cloned(self.latest1->0, snapshot.0)
        &&& self.latest2 is Some && cloned(self.latest2->0, snapshot.1)
    }

    proof fn lemma_snapshot_needs_every_value(self, snapshot: (T1, T2)) {
    }

    proof fn lemma_item_replaces_the_latest(self, item: Item2<T1, T2>, index: int) {
    }

    proof fn lemma_end_keeps_the_latest(self, ended: int, index: int) {
    }

    proof fn lemma_over(self) {
        assert(self.is_done(0) == self.done1 && (self.latest(0) is None <==> self.latest1 is None));
        assert(self.is_done(1) == self.done2 && (self.latest(1) is None <==> self.latest2 is None));
    }

    proof fn lemma_values_are_the_latest(self, snapshot: (T1, T2)) {
        assert(self.latest(0) is Some <==> self.latest1 is Some);
        assert(self.latest(1) is Some <==> self.latest2 is Some);
    }

    fn snapshot(&self) -> (snapshot: Option<(T1, T2)>) {
        let item1 = match &self.latest1 {
            Some(item) => item.clone(),
            None => return None,
        };
        let item2 = match &self.latest2 {
            Some(item) => item.clone(),
            None => return None,
        };
        Some((item1, item2))
    }

    fn over(&self) -> (over: bool) {
        (self.done1 && self.latest1.is_none())
            || (self.done2 && self.latest2.is_none())
            || (self.done1 && self.done2)
    }
}

/// A hot, conflating combination of two input streams.
pub struct CombineLatest2Stream<T1: Clone, T2: Clone, W> {
    inputs: Inputs2<T1, T2>,
    combined: Combined<(T1, T2), W>,
}

impl<T1: Clone, T2: Clone, W> View for CombineLatest2Stream<T1, T2, W> {
    type V = CombineState<Inputs2<T1, T2>, W>;

    closed spec fn view(&self) -> CombineState<Inputs2<T1, T2>, W> {
        self.combined.with(self.inputs)
    }
}

impl<T1: Clone, T2: Clone, W> CombineLatest2Stream<T1, T2, W> {
    /// A combination whose inputs have produced nothing yet.
    pub fn new() -> (stream: Self)
        ensures
            stream@.wf(),
            stream@ == CombineState::<Inputs2<T1, T2>, W>::fresh(
                (Inputs2 {
                    latest1: None,
                    done1: false,
                    latest2: None,
                    done2: false,
                }),
            ),
    {
        let inputs = Inputs2 {
            latest1: None,
            done1: false,
            latest2: None,
            done2: false,
        };
        let combined = Combined::new(&inputs);
        CombineLatest2Stream { inputs, combined }
    }

    /// Notes that the driver runs, and hands out the waker to wake.
    pub fn mark_driver_started(&mut self) -> (wake: Option<W>)
        requires
            old(self)@.wf(),
        ensures
            final(self)@.wf(),
            wake == old(self)@.output.waker,
            final(self)@ == (CombineState {
                output: HotState { driver_started: true, waker: None, ..old(self)@.output },
                ..old(self)@
            }),
    {
        self.combined.mark_driver_started(&self.inputs)
    }

    /// Reports what the first input gave next: an item, or its end.
    pub fn input1_next(&mut self, item: Option<T1>) -> (turn: DriverTurn<W>)
        requires
            old(self)@.wf(),
            !old(self)@.output.done,
            !old(self)@.inputs.done1,
        ensures
            final(self)@.wf(),
            match item {
                Some(item) => old(self)@.published(
                    (Inputs2 { latest1: Some(item), ..old(self)@.inputs }),
                    final(self)@,
                    turn,
                ),
                None => old(self)@.settled(
                    (Inputs2 { done1: true, ..old(self)@.inputs }),
                    final(self)@,
                    turn,
                ),
            },
    {
        match item {
            Some(item) => {
                self.inputs.latest1 = Some(item);
                self.combined.publish(&self.inputs)
            },
            None => {
                self.inputs.done1 = true;
                self.combined.settle(&self.inputs)
            },
        }
    }

    /// Reports what the second input gave next: an item, or its end.
    pub fn input2_next(&mut self, item: Option<T2>) -> (turn: DriverTurn<W>)
        requires
            old(self)@.wf(),
            !old(self)@.output.done,
            !old(self)@.inputs.done2,
        ensures
            final(self)@.wf(),
            match item {
                Some(item) => old(self)@.published(
                    (Inputs2 { latest2: Some(item), ..old(self)@.inputs }),
                    final(self)@,
                    turn,
                ),
                None => old(self)@.settled(
                    (Inputs2 { done2: true, ..old(self)@.inputs }),
                    final(self)@,
                    turn,
                ),
            },
    {
        match item {
            Some(item) => {
                self.inputs.latest2 = Some(item);
                self.combined.publish(&self.inputs)
            },
            None => {
                self.inputs.done2 = true;
                self.combined.settle(&self.inputs)
            },
        }
    }

    /// The driver is gone, for whatever reason: completes the stream.
    pub fn close(&mut self) -> (wake: Option<W>)
        requires
            old(self)@.wf(),
        ensures
            final(self)@.wf(),
            wake == old(self)@.output.waker,
            final(self)@ == (CombineState { output: old(self)@.output.closed(), ..old(self)@ }),
    {
        self.combined.close(&self.inputs)
    }

    /// The consumer's poll, with the waker of the polling task.
    pub fn poll_next(&mut self, waker: W) -> (outcome: StreamPoll<(T1, T2)>)
        requires
            old(self)@.wf(),
        ensures
            final(self)@.wf(),
            final(self)@ == (CombineState {
                output: old(self)@.output.polled(waker),
                ..old(self)@
            }),
            outcome == old(self)@.output.poll(),
    {
        self.combined.poll_next(&self.inputs, waker)
    }
}

/// The latest values of three inputs, and which of them have completed.
pub struct Inputs3<T1, T2, T3> {
    pub latest1: Option<T1>,
    pub done1: bool,
    pub latest2: Option<T2>,
    pub done2: bool,
    pub latest3: Option<T3>,
    pub done3: bool,
}

/// An item of one of three inputs.
pub enum Item3<T1, T2, T3> {
    Input1(T1),
    Input2(T2),
    Input3(T3),
}

impl<T1: Clone, T2: Clone, T3: Clone> CombineInputs for Inputs3<T1, T2, T3> {
    type Snapshot = (T1, T2, T3);

    type Item = Item3<T1, T2, T3>;

    open spec fn arity() -> nat {
        3
    }

    open spec fn index_of(item: Item3<T1, T2, T3>) -> int {
        match item {
            Item3::Input1(_) => 0,
            Item3::Input2(_) => 1,
            Item3::Input3(_) => 2,
        }
    }

    open spec fn latest(self, index: int) -> Option<Item3<T1, T2, T3>> {
        if index == 0 {
            match self.latest1 {
                Some(item) => Some(Item3::Input1(item)),
                None => None,
            }
        } else if index == 1 {
            match self.latest2 {
                Some(item) => Some(Item3::Input2(item)),
                None => None,
            }
        } else if index == 2 {
            match self.latest3 {
                Some(item) => Some(Item3::Input3(item)),
                None => None,
            }
        } else {
            None
        }
    }

    open spec fn is_done(self, index: int) -> bool {
        if index == 0 {
            self.done1
        } else if index == 1 {
            self.done2
        } else if index == 2 {
            self.done3
        } else {
            true
        }
    }

    open spec fn with_item(self, item: Item3<T1, T2, T3>) -> Self {
        match item {
            Item3::Input1(item) => Inputs3 { latest1: Some(item), ..self },
            Item3::Input2(item) => Inputs3 { latest2: Some(item), ..self },
            Item3::Input3(item) => Inputs3 { latest3: Some(item), ..self },
        }
    }

    open spec fn with_end(self, index: int) -> Self {
        if index == 0 {
            Inputs3 { done1: true, ..self }
        } else if index == 1 {
            Inputs3 { done2: true, ..self }
        } else if index == 2 {
            Inputs3 { done3: true, ..self }
        } else {
            self
        }
    }

    open spec fn shows(snapshot: (T1, T2, T3), item: Item3<T1, T2, T3>) -> bool {
        match item {
            Item3::Input1(item) => cloned(item, snapshot.0),
            Item3::Input2(item) => cloned(item, snapshot.1),
            Item3::Input3(item) => cloned(item, snapshot.2),
        }
    }

    open spec fn all_present(self) -> bool {
        &&& self.latest1 is Some
        &&& self.latest2 is Some
        &&& self.latest3 is Some
    }

    open spec fn is_over(self) -> bool {
        ||| self.done1 && self.latest1 is None
        ||| self.done2 && self.latest2 is None
        ||| self.done3 && self.latest3 is None
        ||| self.done1 && self.done2 && self.done3
    }

    open spec fn is_snapshot(self, snapshot: (T1, T2, T3)) -> bool {
        &&& self.latest1 is Some && cloned(self.latest1->0, snapshot.0)
        &&& self.latest2 is Some && cloned(self.latest2->0, snapshot.1)
        &&& self.latest3 is Some && cloned(self.latest3->0, snapshot.2)
    }

    proof fn lemma_snapshot_needs_every_value(self, snapshot: (T1, T2, T3)) {
    }

    proof fn lemma_item_replaces_the_latest(self, item: Item3<T1, T2, T3>, index: int) {
    }

    proof fn lemma_end_keeps_the_latest(self, ended: int, index: int) {
    }

    proof fn lemma_over(self) {
        assert(self.is_done(0) == self.done1 && (self.latest(0) is None <==> self.latest1 is None));
        assert(self.is_done(1) == self.done2 && (self.latest(1) is None <==> self.latest2 is None));
        assert(self.is_done(2) == self.done3 && (self.latest(2) is None <==> self.latest3 is None));
    }

    proof fn lemma_values_are_the_latest(self, snapshot: (T1, T2, T3)) {
        assert(self.latest(0) is Some <==> self.latest1 is Some);
        assert(self.latest(1) is Some <==> self.latest2 is Some);
        assert(self.latest(2) is Some <==> self.latest3 is Some);
    }

    fn snapshot(&self) -> (snapshot: Option<(T1, T2, T3)>) {
        let item1 = match &self.latest1 {
            Some(item) => item.clone(),
            None => return None,
        };
        let item2 = match &self.latest2 {
            Some(item) => item.clone(),
            None => return None,
        };
        let item3 = match &self.latest3 {
            Some(item) => item.clone(),
            None => return None,
        };
        Some((item1, item2, item3))
    }

    fn over(&self) -> (over: bool) {
        (self.done1 && self.latest1.is_none())
            || (self.done2 && self.latest2.is_none())
            || (self.done3 && self.latest3.is_none())
            || (self.done1 && self.done2 && self.done3)
    }
}

/// A hot, conflating combination of three input streams.
pub struct CombineLatest3Stream<T1: Clone, T2: Clone, T3: Clone, W> {
    inputs: Inputs3<T1, T2, T3>,
    combined: Combined<(T1, T2, T3), W>,
}

impl<T1: Clone, T2: Clone, T3: Clone, W> View for CombineLatest3Stream<T1, T2, T3, W> {
    type V = CombineState<Inputs3<T1, T2, T3>, W>;

    closed spec fn view(&self) -> CombineState<Inputs3<T1, T2, T3>, W> {
        self.combined.with(self.inputs)
    }
}

impl<T1: Clone, T2: Clone, T3: Clone, W> CombineLatest3Stream<T1, T2, T3, W> {
    /// A combination whose inputs have produced nothing yet.
    pub fn new() -> (stream: Self)
        ensures
            stream@.wf(),
            stream@ == CombineState::<Inputs3<T1, T2, T3>, W>::fresh(
                (Inputs3 {
                    latest1: None,
                    done1: false,
                    latest2: None,
                    done2: false,
                    latest3: None,
                    done3: false,
                }),
            ),
    {
        let inputs = Inputs3 {
            latest1: None,
            done1: false,
            latest2: None,
            done2: false,
            latest3: None,
            done3: false,
        };
        let combined = Combined::new(&inputs);
        CombineLatest3Stream { inputs, combined }
    }

    /// Notes that the driver runs, and hands out the waker to wake.
    pub fn mark_driver_started(&mut self) -> (wake: Option<W>)
        requires
            old(self)@.wf(),
        ensures
            final(self)@.wf(),
            wake == old(self)@.output.waker,
            final(self)@ == (CombineState {
                output: HotState { driver_started: true, waker: None, ..old(self)@.output },
                ..old(self)@
            }),
    {
        self.combined.mark_driver_started(&self.inputs)
    }

    /// Reports what the first input gave next: an item, or its end.
    pub fn input1_next(&mut self, item: Option<T1>) -> (turn: DriverTurn<W>)
        requires
            old(self)@.wf(),
            !old(self)@.output.done,
            !old(self)@.inputs.done1,
        ensures
            final(self)@.wf(),
            match item {
                Some(item) => old(self)@.published(
                    (Inputs3 { latest1: Some(item), ..old(self)@.inputs }),
                    final(self)@,
                    turn,
                ),
                None => old(self)@.settled(
                    (Inputs3 { done1: true, ..old(self)@.inputs }),
                    final(self)@,
                    turn,
                ),
            },
    {
        match item {
            Some(item) => {
                self.inputs.latest1 = Some(item);
                self.combined.publish(&self.inputs)
            },
            None => {
                self.inputs.done1 = true;
                self.combined.settle(&self.inputs)
            },
        }
    }

    /// Reports what the second input gave next: an item, or its end.
    pub fn input2_next(&mut self, item: Option<T2>) -> (turn: DriverTurn<W>)
        requires
            old(self)@.wf(),
            !old(self)@.output.done,
            !old(self)@.inputs.done2,
        ensures
            final(self)@.wf(),
            match item {
                Some(item) => old(self)@.published(
                    (Inputs3 { latest2: Some(item), ..old(self)@.inputs }),
                    final(self)@,
                    turn,
                ),
                None => old(self)@.settled(
                    (Inputs3 { done2: true, ..old(self)@.inputs }),
                    final(self)@,
                    turn,
                ),
            },
    {
        match item {
            Some(item) => {
                self.inputs.latest2 = Some(item);
                self.combined.publish(&self.inputs)
            },
            None => {
                self.inputs.done2 = true;
                self.combined.settle(&self.inputs)
            },
        }
    }

    /// Reports what the third input gave next: an item, or its end.
    pub fn input3_next(&mut self, item: Option<T3>) -> (turn: DriverTurn<W>)
        requires
            old(self)@.wf(),
            !old(self)@.output.done,
            !old(self)@.inputs.done3,
        ensures
            final(self)@.wf(),
            match item {
                Some(item) => old(self)@.published(
                    (Inputs3 { latest3: Some(item), ..old(self)@.inputs }),
                    final(self)@,
                    turn,
                ),
                None => old(self)@.settled(
                    (Inputs3 { done3: true, ..old(self)@.inputs }),
                    final(self)@,
                    turn,
                ),
            },
    {
        match item {
            Some(item) => {
                self.inputs.latest3 = Some(item);
                self.combined.publish(&self.inputs)
            },
            None => {
                self.inputs.done3 = true;
                self.combined.settle(&self.inputs)
            },
        }
    }

    /// The driver is gone, for whatever reason: completes the stream.
    pub fn close(&mut self) -> (wake: Option<W>)
        requires
            old(self)@.wf(),
        ensures
            final(self)@.wf(),
            wake == old(self)@.output.waker,
            final(self)@ == (CombineState { output: old(self)@.output.closed(), ..old(self)@ }),
    {
        self.combined.close(&self.inputs)
    }

    /// The consumer's poll, with the waker of the polling task.
    pub fn poll_next(&mut self, waker: W) -> (outcome: StreamPoll<(T1, T2, T3)>)
        requires
            old(self)@.wf(),
        ensures
            final(self)@.wf(),
            final(self)@ == (CombineState {
                output: old(self)@.output.polled(waker),
                ..old(self)@
            }),
            outcome == old(self)@.output.poll(),
    {
        self.combined.poll_next(&self.inputs, waker)
    }
}

/// The latest values of four inputs, and which of them have completed.
pub struct Inputs4<T1, T2, T3, T4> {
    pub latest1: Option<T1>,
    pub done1: bool,
    pub latest2: Option<T2>,
    pub done2: bool,
    pub latest3: Option<T3>,
    pub done3: bool,
    pub latest4: Option<T4>,
    pub done4: bool,
}

/// An item of one of four inputs.
pub enum Item4<T1, T2, T3, T4> {
    Input1(T1),
    Input2(T2),
    Input3(T3),
    Input4(T4),
}

impl<T1: Clone, T2: Clone, T3: Clone, T4: Clone> CombineInputs for Inputs4<T1, T2, T3, T4> {
    type Snapshot = (T1, T2, T3, T4);

    type Item = Item4<T1, T2, T3, T4>;

    open spec fn arity() -> nat {
        4
    }

    open spec fn index_of(item: Item4<T1, T2, T3, T4>) -> int {
        match item {
            Item4::Input1(_) => 0,
            Item4::Input2(_) => 1,
            Item4::Input3(_) => 2,
            Item4::Input4(_) => 3,
        }
    }

    open spec fn latest(self, index: int) -> Option<Item4<T1, T2, T3, T4>> {
        if index == 0 {
            match self.latest1 {
                Some(item) => Some(Item4::Input1(item)),
                None => None,
            }
        } else if index == 1 {
            match self.latest2 {
                Some(item) => Some(Item4::Input2(item)),
                None => None,
            }
        } else if index == 2 {
            match self.latest3 {
                Some(item) => Some(Item4::Input3(item)),
                None => None,
            }
        } else if index == 3 {
            match self.latest4 {
                Some(item) => Some(Item4::Input4(item)),
                None => None,
            }
        } else {
            None
        }
    }

    open spec fn is_done(self, index: int) -> bool {
        if index == 0 {
            self.done1
        } else if index == 1 {
            self.done2
        } else if index == 2 {
            self.done3
        } else if index == 3 {
            self.done4
        } else {
            true
        }
    }

    open spec fn with_item(self, item: Item4<T1, T2, T3, T4>) -> Self {
        match item {
            Item4::Input1(item) => Inputs4 { latest1: Some(item), ..self },
            Item4::Input2(item) => Inputs4 { latest2: Some(item), ..self },
            Item4::Input3(item) => Inputs4 { latest3: Some(item), ..self },
            Item4::Input4(item) => Inputs4 { latest4: Some(item), ..self },
        }
    }

    open spec fn with_end(self, index: int) -> Self {
        if index == 0 {
            Inputs4 { done1: true, ..self }
        } else if index == 1 {
            Inputs4 { done2: true, ..self }
        } else if index == 2 {
            Inputs4 { done3: true, ..self }
        } else if index == 3 {
            Inputs4 { done4: true, ..self }
        } else {
            self
        }
    }

    open spec fn shows(snapshot: (T1, T2, T3, T4), item: Item4<T1, T2, T3, T4>) -> bool {
        match item {
            Item4::Input1(item) => cloned(item, snapshot.0),
            Item4::Input2(item) => cloned(item, snapshot.1),
            Item4::Input3(item) => cloned(item, snapshot.2),
            Item4::Input4(item) => cloned(item, snapshot.3),
        }
    }

    open spec fn all_present(self) -> bool {
        &&& self.latest1 is Some
        &&& self.latest2 is Some
        &&& self.latest3 is Some
        &&& self.latest4 is Some
    }

    open spec fn is_over(self) -> bool {
        ||| self.done1 && self.latest1 is None
        ||| self.done2 && self.latest2 is None
        ||| self.done3 && self.latest3 is None
        ||| self.done4 && self.latest4 is None
        ||| self.done1 && self.done2 && self.done3 && self.done4
    }

    open spec fn is_snapshot(self, snapshot: (T1, T2, T3, T4)) -> bool {
        &&& self.latest1 is Some && cloned(self.latest1->0, snapshot.0)
        &&& self.latest2 is Some && cloned(self.latest2->0, snapshot.1)
        &&& self.latest3 is Some && cloned(self.latest3->0, snapshot.2)
        &&& self.latest4 is Some && cloned(self.latest4->0, snapshot.3)
    }

    proof fn lemma_snapshot_needs_every_value(self, snapshot: (T1, T2, T3, T4)) {
    }

    proof fn lemma_item_replaces_the_latest(self, item: Item4<T1, T2, T3, T4>, index: int) {
    }

    proof fn lemma_end_keeps_the_latest(self, ended: int, index: int) {
    }

    proof fn lemma_over(self) {
        assert(self.is_done(0) == self.done1 && (self.latest(0) is None <==> self.latest1 is None));
        assert(self.is_done(1) == self.done2 && (self.latest(1) is None <==> self.latest2 is None));
        assert(self.is_done(2) == self.done3 && (self.latest(2) is None <==> self.latest3 is None));
        assert(self.is_done(3) == self.done4 && (self.latest(3) is None <==> self.latest4 is None));
    }

    proof fn lemma_values_are_the_latest(self, snapshot: (T1, T2, T3, T4)) {
        assert(self.latest(0) is Some <==> self.latest1 is Some);
        assert(self.latest(1) is Some <==> self.latest2 is Some);
        assert(self.latest(2) is Some <==> self.latest3 is Some);
        assert(self.latest(3) is Some <==> self.latest4 is Some);
    }

    fn snapshot(&self) -> (snapshot: Option<(T1, T2, T3, T4)>) {
        let item1 = match &self.latest1 {
            Some(item) => item.clone(),
            None => return None,
        };
        let item2 = match &self.latest2 {
            Some(item) => item.clone(),
            None => return None,
        };
        let item3 = match &self.latest3 {
            Some(item) => item.clone(),
            None => return None,
        };
        let item4 = match &self.latest4 {
            Some(item) => item.clone(),
            None => return None,
        };
        Some((item1, item2, item3, item4))
    }

    fn over(&self) -> (over: bool) {
        (self.done1 && self.latest1.is_none())
            || (self.done2 && self.latest2.is_none())
            || (self.done3 && self.latest3.is_none())
            || (self.done4 && self.latest4.is_none())
            || (self.done1 && self.done2 && self.done3 && self.done4)
    }
}

/// A hot, conflating combination of four input streams.
pub struct CombineLatest4Stream<T1: Clone, T2: Clone, T3: Clone, T4: Clone, W> {
    inputs: Inputs4<T1, T2, T3, T4>,
    combined: Combined<(T1, T2, T3, T4), W>,
}

impl<T1: Clone, T2: Clone, T3: Clone, T4: Clone, W> View for CombineLatest4Stream<T1, T2, T3, T4, W> {
    type V = CombineState<Inputs4<T1, T2, T3, T4>, W>;

    closed spec fn view(&self) -> CombineState<Inputs4<T1, T2, T3, T4>, W> {
        self.combined.with(self.inputs)
    }
}

impl<T1: Clone, T2: Clone, T3: Clone, T4: Clone, W> CombineLatest4Stream<T1, T2, T3, T4, W> {
    /// A combination whose inputs have produced nothing yet.
    pub fn new() -> (stream: Self)
        ensures
            stream@.wf(),
            stream@ == CombineState::<Inputs4<T1, T2, T3, T4>, W>::fresh(
                (Inputs4 {
                    latest1: None,
                    done1: false,
                    latest2: None,
                    done2: false,
                    latest3: None,
                    done3: false,
                    latest4: None,
                    done4: false,
                }),
            ),
    {
        let inputs = Inputs4 {
            latest1: None,
            done1: false,
            latest2: None,
            done2: false,
            latest3: None,
            done3: false,
            latest4: None,
            done4: false,
        };
        let combined = Combined::new(&inputs);
        CombineLatest4Stream { inputs, combined }
    }

    /// Notes that the driver runs, and hands out the waker to wake.
    pub fn mark_driver_started(&mut self) -> (wake: Option<W>)
        requires
            old(self)@.wf(),
        ensures
            final(self)@.wf(),
            wake == old(self)@.output.waker,
            final(self)@ == (CombineState {
                output: HotState { driver_started: true, waker: None, ..old(self)@.output },
                ..old(self)@
            }),
    {
        self.combined.mark_driver_started(&self.inputs)
    }

    /// Reports what the first input gave next: an item, or its end.
    pub fn input1_next(&mut self, item: Option<T1>) -> (turn: DriverTurn<W>)
        requires
            old(self)@.wf(),
            !old(self)@.output.done,
            !old(self)@.inputs.done1,
        ensures
            final(self)@.wf(),
            match item {
                Some(item) => old(self)@.published(
                    (Inputs4 { latest1: Some(item), ..old(self)@.inputs }),
                    final(self)@,
                    turn,
                ),
                None => old(self)@.settled(
                    (Inputs4 { done1: true, ..old(self)@.inputs }),
                    final(self)@,
                    turn,
                ),
            },
    {
        match item {
            Some(item) => {
                self.inputs.latest1 = Some(item);
                self.combined.publish(&self.inputs)
            },
            None => {
                self.inputs.done1 = true;
                self.combined.settle(&self.inputs)
            },
        }
    }

    /// Reports what the second input gave next: an item, or its end.
    pub fn input2_next(&mut self, item: Option<T2>) -> (turn: DriverTurn<W>)
        requires
            old(self)@.wf(),
            !old(self)@.output.done,
            !old(self)@.inputs.done2,
        ensures
            final(self)@.wf(),
            match item {
                Some(item) => old(self)@.published(
                    (Inputs4 { latest2: Some(item), ..old(self)@.inputs }),
                    final(self)@,
                    turn,
                ),
                None => old(self)@.settled(
                    (Inputs4 { done2: true, ..old(self)@.inputs }),
                    final(self)@,
                    turn,
                ),
            },
    {
        match item {
            Some(item) => {
                self.inputs.latest2 = Some(item);
                self.combined.publish(&self.inputs)
            },
            None => {
                self.inputs.done2 = true;
                self.combined.settle(&self.inputs)
            },
        }
    }

    /// Reports what the third input gave next: an item, or its end.
    pub fn input3_next(&mut self, item: Option<T3>) -> (turn: DriverTurn<W>)
        requires
            old(self)@.wf(),
            !old(self)@.output.done,
            !old(self)@.inputs.done3,
        ensures
            final(self)@.wf(),
            match item {
                Some(item) => old(self)@.published(
                    (Inputs4 { latest3: Some(item), ..old(self)@.inputs }),
                    final(self)@,
                    turn,
                ),
                None => old(self)@.settled(
                    (Inputs4 { done3: true, ..old(self)@.inputs }),
                    final(self)@,
                    turn,
                ),
            },
    {
        match item {
            Some(item) => {
                self.inputs.latest3 = Some(item);
                self.combined.publish(&self.inputs)
            },
            None => {
                self.inputs.done3 = true;
                self.combined.settle(&self.inputs)
            },
        }
    }

    /// Reports what the fourth input gave next: an item, or its end.
    pub fn input4_next(&mut self, item: Option<T4>) -> (turn: DriverTurn<W>)
        requires
            old(self)@.wf(),
            !old(self)@.output.done,
            !old(self)@.inputs.done4,
        ensures
            final(self)@.wf(),
            match item {
                Some(item) => old(self)@.published(
                    (Inputs4 { latest4: Some(item), ..old(self)@.inputs }),
                    final(self)@,
                    turn,
                ),
                None => old(self)@.settled(
                    (Inputs4 { done4: true, ..old(self)@.inputs }),
                    final(self)@,
                    turn,
                ),
            },
    {
        match item {
            Some(item) => {
                self.inputs.latest4 = Some(item);
                self.combined.publish(&self.inputs)
            },
            None => {
                self.inputs.done4 = true;
                self.combined.settle(&self.inputs)
            },
        }
    }

    /// The driver is gone, for whatever reason: completes the stream.
    pub fn close(&mut self) -> (wake: Option<W>)
        requires
            old(self)@.wf(),
        ensures
            final(self)@.wf(),
            wake == old(self)@.output.waker,
            final(self)@ == (CombineState { output: old(self)@.output.closed(), ..old(self)@ }),
    {
        self.combined.close(&self.inputs)
    }

    /// The consumer's poll, with the waker of the polling task.
    pub fn poll_next(&mut self, waker: W) -> (outcome: StreamPoll<(T1, T2, T3, T4)>)
        requires
            old(self)@.wf(),
        ensures
            final(self)@.wf(),
            final(self)@ == (CombineState {
                output: old(self)@.output.polled(waker),
                ..old(self)@
            }),
            outcome == old(self)@.output.poll(),
    {
        self.combined.poll_next(&self.inputs, waker)
    }
}

/// The latest values of five inputs, and which of them have completed.
pub struct Inputs5<T1, T2, T3, T4, T5> {
    pub latest1: Option<T1>,
    pub done1: bool,
    pub latest2: Option<T2>,
    pub done2: bool,
    pub latest3: Option<T3>,
    pub done3: bool,
    pub latest4: Option<T4>,
    pub done4: bool,
    pub latest5: Option<T5>,
    pub done5: bool,
}

/// An item of one of five inputs.
pub enum Item5<T1, T2, T3, T4, T5> {
    Input1(T1),
    Input2(T2),
    Input3(T3),
    Input4(T4),
    Input5(T5),
}

impl<T1: Clone, T2: Clone, T3: Clone, T4: Clone, T5: Clone> CombineInputs for Inputs5<T1, T2, T3, T4, T5> {
    type Snapshot = (T1, T2, T3, T4, T5);

    type Item = Item5<T1, T2, T3, T4, T5>;

    open spec fn arity() -> nat {
        5
    }

    open spec fn index_of(item: Item5<T1, T2, T3, T4, T5>) -> int {
        match item {
            Item5::Input1(_) => 0,
            Item5::Input2(_) => 1,
            Item5::Input3(_) => 2,
            Item5::Input4(_) => 3,
            Item5::Input5(_) => 4,
        }
    }

    open spec fn latest(self, index: int) -> Option<Item5<T1, T2, T3, T4, T5>> {
        if index == 0 {
            match self.latest1 {
                Some(item) => Some(Item5::Input1(item)),
                None => None,
            }
        } else if index == 1 {
            match self.latest2 {
                Some(item) => Some(Item5::Input2(item)),
                None => None,
            }
        } else if index == 2 {
            match self.latest3 {
                Some(item) => Some(Item5::Input3(item)),
                None => None,
            }
        } else if index == 3 {
            match self.latest4 {
                Some(item) => Some(Item5::Input4(item)),
                None => None,
            }
        } else if index == 4 {
            match self.latest5 {
                Some(item) => Some(Item5::Input5(item)),
                None => None,
            }
        } else {
            None
        }
    }

    open spec fn is_done(self, index: int) -> bool {
        if index == 0 {
            self.done1
        } else if index == 1 {
            self.done2
        } else if index == 2 {
            self.done3
        } else if index == 3 {
            self.done4
        } else if index == 4 {
            self.done5
        } else {
            true
        }
    }

    open spec fn with_item(self, item: Item5<T1, T2, T3, T4, T5>) -> Self {
        match item {
            Item5::Input1(item) => Inputs5 { latest1: Some(item), ..self },
            Item5::Input2(item) => Inputs5 { latest2: Some(item), ..self },
            Item5::Input3(item) => Inputs5 { latest3: Some(item), ..self },
            Item5::Input4(item) => Inputs5 { latest4: Some(item), ..self },
            Item5::Input5(item) => Inputs5 { latest5: Some(item), ..self },
        }
    }

    open spec fn with_end(self, index: int) -> Self {
        if index == 0 {
            Inputs5 { done1: true, ..self }
        } else if index == 1 {
            Inputs5 { done2: true, ..self }
        } else if index == 2 {
            Inputs5 { done3: true, ..self }
        } else if index == 3 {
            Inputs5 { done4: true, ..self }
        } else if index == 4 {
            Inputs5 { done5: true, ..self }
        } else {
            self
        }
    }

    open spec fn shows(snapshot: (T1, T2, T3, T4, T5), item: Item5<T1, T2, T3, T4, T5>) -> bool {
        match item {
            Item5::Input1(item) => cloned(item, snapshot.0),
            Item5::Input2(item) => cloned(item, snapshot.1),
            Item5::Input3(item) => cloned(item, snapshot.2),
            Item5::Input4(item) => cloned(item, snapshot.3),
            Item5::Input5(item) => cloned(item, snapshot.4),
        }
    }

    open spec fn all_present(self) -> bool {
        &&& self.latest1 is Some
        &&& self.latest2 is Some
        &&& self.latest3 is Some
        &&& self.latest4 is Some
        &&& self.latest5 is Some
    }

    open spec fn is_over(self) -> bool {
        ||| self.done1 && self.latest1 is None
        ||| self.done2 && self.latest2 is None
        ||| self.done3 && self.latest3 is None
        ||| self.done4 && self.latest4 is None
        ||| self.done5 && self.latest5 is None
        ||| self.done1 && self.done2 && self.done3 && self.done4 && self.done5
    }

    open spec fn is_snapshot(self, snapshot: (T1, T2, T3, T4, T5)) -> bool {
        &&& self.latest1 is Some && cloned(self.latest1->0, snapshot.0)
        &&& self.latest2 is Some && cloned(self.latest2->0, snapshot.1)
        &&& self.latest3 is Some && cloned(self.latest3->0, snapshot.2)
        &&& self.latest4 is Some && cloned(self.latest4->0, snapshot.3)
        &&& self.latest5 is Some && cloned(self.latest5->0, snapshot.4)
    }

    proof fn lemma_snapshot_needs_every_value(self, snapshot: (T1, T2, T3, T4, T5)) {
    }

    proof fn lemma_item_replaces_the_latest(self, item: Item5<T1, T2, T3, T4, T5>, index: int) {
    }

    proof fn lemma_end_keeps_the_latest(self, ended: int, index: int) {
    }

    proof fn lemma_over(self) {
        assert(self.is_done(0) == self.done1 && (self.latest(0) is None <==> self.latest1 is None));
        assert(self.is_done(1) == self.done2 && (self.latest(1) is None <==> self.latest2 is None));
        assert(self.is_done(2) == self.done3 && (self.latest(2) is None <==> self.latest3 is None));
        assert(self.is_done(3) == self.done4 && (self.latest(3) is None <==> self.latest4 is None));
        assert(self.is_done(4) == self.done5 && (self.latest(4) is None <==> self.latest5 is None));
    }

    proof fn lemma_values_are_the_latest(self, snapshot: (T1, T2, T3, T4, T5)) {
        assert(self.latest(0) is Some <==> self.latest1 is Some);
        assert(self.latest(1) is Some <==> self.latest2 is Some);
        assert(self.latest(2) is Some <==> self.latest3 is Some);
        assert(self.latest(3) is Some <==> self.latest4 is Some);
        assert(self.latest(4) is Some <==> self.latest5 is Some);
    }

    fn snapshot(&self) -> (snapshot: Option<(T1, T2, T3, T4, T5)>) {
        let item1 = match &self.latest1 {
            Some(item) => item.clone(),
            None => return None,
        };
        let item2 = match &self.latest2 {
            Some(item) => item.clone(),
            None => return None,
        };
        let item3 = match &self.latest3 {
            Some(item) => item.clone(),
            None => return None,
        };
        let item4 = match &self.latest4 {
            Some(item) => item.clone(),
            None => return None,
        };
        let item5 = match &self.latest5 {
            Some(item) => item.clone(),
            None => return None,
        };
        Some((item1, item2, item3, item4, item5))
    }

    fn over(&self) -> (over: bool) {
        (self.done1 && self.latest1.is_none())
            || (self.done2 && self.latest2.is_none())
            || (self.done3 && self.latest3.is_none())
            || (self.done4 && self.latest4.is_none())
            || (self.done5 && self.latest5.is_none())
            || (self.done1 && self.done2 && self.done3 && self.done4 && self.done5)
    }
}

/// A hot, conflating combination of five input streams.
pub struct CombineLatest5Stream<T1: Clone, T2: Clone, T3: Clone, T4: Clone, T5: Clone, W> {
    inputs: Inputs5<T1, T2, T3, T4, T5>,
    combined: Combined<(T1, T2, T3, T4, T5), W>,
}

impl<T1: Clone, T2: Clone, T3: Clone, T4: Clone, T5: Clone, W> View for CombineLatest5Stream<T1, T2, T3, T4, T5, W> {
    type V = CombineState<Inputs5<T1, T2, T3, T4, T5>, W>;

    closed spec fn view(&self) -> CombineState<Inputs5<T1, T2, T3, T4, T5>, W> {
        self.combined.with(self.inputs)
    }
}

impl<T1: Clone, T2: Clone, T3: Clone, T4: Clone, T5: Clone, W> CombineLatest5Stream<T1, T2, T3, T4, T5, W> {
    /// A combination whose inputs have produced nothing yet.
    pub fn new() -> (stream: Self)
        ensures
            stream@.wf(),
            stream@ == CombineState::<Inputs5<T1, T2, T3, T4, T5>, W>::fresh(
                (Inputs5 {
                    latest1: None,
                    done1: false,
                    latest2: None,
                    done2: false,
                    latest3: None,
                    done3: false,
                    latest4: None,
                    done4: false,
                    latest5: None,
                    done5: false,
                }),
            ),
    {
        let inputs = Inputs5 {
            latest1: None,
            done1: false,
            latest2: None,
            done2: false,
            latest3: None,
            done3: false,
            latest4: None,
            done4: false,
            latest5: None,
            done5: false,
        };
        let combined = Combined::new(&inputs);
        CombineLatest5Stream { inputs, combined }
    }

    /// Notes that the driver runs, and hands out the waker to wake.
    pub fn mark_driver_started(&mut self) -> (wake: Option<W>)
        requires
            old(self)@.wf(),
        ensures
            final(self)@.wf(),
            wake == old(self)@.output.waker,
            final(self)@ == (CombineState {
                output: HotState { driver_started: true, waker: None, ..old(self)@.output },
                ..old(self)@
            }),
    {
        self.combined.mark_driver_started(&self.inputs)
    }

    /// Reports what the first input gave next: an item, or its end.
    pub fn input1_next(&mut self, item: Option<T1>) -> (turn: DriverTurn<W>)
        requires
            old(self)@.wf(),
            !old(self)@.output.done,
            !old(self)@.inputs.done1,
        ensures
            final(self)@.wf(),
            match item {
                Some(item) => old(self)@.published(
                    (Inputs5 { latest1: Some(item), ..old(self)@.inputs }),
                    final(self)@,
                    turn,
                ),
                None => old(self)@.settled(
                    (Inputs5 { done1: true, ..old(self)@.inputs }),
                    final(self)@,
                    turn,
                ),
            },
    {
        match item {
            Some(item) => {
                self.inputs.latest1 = Some(item);
                self.combined.publish(&self.inputs)
            },
            None => {
                self.inputs.done1 = true;
                self.combined.settle(&self.inputs)
            },
        }
    }

    /// Reports what the second input gave next: an item, or its end.
    pub fn input2_next(&mut self, item: Option<T2>) -> (turn: DriverTurn<W>)
        requires
            old(self)@.wf(),
            !old(self)@.output.done,
            !old(self)@.inputs.done2,
        ensures
            final(self)@.wf(),
            match item {
                Some(item) => old(self)@.published(
                    (Inputs5 { latest2: Some(item), ..old(self)@.inputs }),
                    final(self)@,
                    turn,
                ),
                None => old(self)@.settled(
                    (Inputs5 { done2: true, ..old(self)@.inputs }),
                    final(self)@,
                    turn,
                ),
            },
    {
        match item {
            Some(item) => {
                self.inputs.latest2 = Some(item);
                self.combined.publish(&self.inputs)
            },
            None => {
                self.inputs.done2 = true;
                self.combined.settle(&self.inputs)
            },
        }
    }

    /// Reports what the third input gave next: an item, or its end.
    pub fn input3_next(&mut self, item: Option<T3>) -> (turn: DriverTurn<W>)
        requires
            old(self)@.wf(),
            !old(self)@.output.done,
            !old(self)@.inputs.done3,
        ensures
            final(self)@.wf(),
            match item {
                Some(item) => old(self)@.published(
                    (Inputs5 { latest3: Some(item), ..old(self)@.inputs }),
                    final(self)@,
                    turn,
                ),
                None => old(self)@.settled(
                    (Inputs5 { done3: true, ..old(self)@.inputs }),
                    final(self)@,
                    turn,
                ),
            },
    {
        match item {
            Some(item) => {
                self.inputs.latest3 = Some(item);
                self.combined.publish(&self.inputs)
            },
            None => {
                self.inputs.done3 = true;
                self.combined.settle(&self.inputs)
            },
        }
    }

    /// Reports what the fourth input gave next: an item, or its end.
    pub fn input4_next(&mut self, item: Option<T4>) -> (turn: DriverTurn<W>)
        requires
            old(self)@.wf(),
            !old(self)@.output.done,
            !old(self)@.inputs.done4,
        ensures
            final(self)@.wf(),
            match item {
                Some(item) => old(self)@.published(
                    (Inputs5 { latest4: Some(item), ..old(self)@.inputs }),
                    final(self)@,
                    turn,
                ),
                None => old(self)@.settled(
                    (Inputs5 { done4: true, ..old(self)@.inputs }),
                    final(self)@,
                    turn,
                ),
            },
    {
        match item {
            Some(item) => {
                self.inputs.latest4 = Some(item);
                self.combined.publish(&self.inputs)
            },
            None => {
                self.inputs.done4 = true;
                self.combined.settle(&self.inputs)
            },
        }
    }

    /// Reports what the fifth input gave next: an item, or its end.
    pub fn input5_next(&mut self, item: Option<T5>) -> (turn: DriverTurn<W>)
        requires
            old(self)@.wf(),
            !old(self)@.output.done,
            !old(self)@.inputs.done5,
        ensures
            final(self)@.wf(),
            match item {
                Some(item) => old(self)@.published(
                    (Inputs5 { latest5: Some(item), ..old(self)@.inputs }),
                    final(self)@,
                    turn,
                ),
                None => old(self)@.settled(
                    (Inputs5 { done5: true, ..old(self)@.inputs }),
                    final(self)@,
                    turn,
                ),
            },
    {
        match item {
            Some(item) => {
                self.inputs.latest5 = Some(item);
                self.combined.publish(&self.inputs)
            },
            None => {
                self.inputs.done5 = true;
                self.combined.settle(&self.inputs)
            },
        }
    }

    /// The driver is gone, for whatever reason: completes the stream.
    pub fn close(&mut self) -> (wake: Option<W>)
        requires
            old(self)@.wf(),
        ensures
            final(self)@.wf(),
            wake == old(self)@.output.waker,
            final(self)@ == (CombineState { output: old(self)@.output.closed(), ..old(self)@ }),
    {
        self.combined.close(&self.inputs)
    }

    /// The consumer's poll, with the waker of the polling task.
    pub fn poll_next(&mut self, waker: W) -> (outcome: StreamPoll<(T1, T2, T3, T4, T5)>)
        requires
            old(self)@.wf(),
        ensures
            final(self)@.wf(),
            final(self)@ == (CombineState {
                output: old(self)@.output.polled(waker),
                ..old(self)@
            }),
            outcome == old(self)@.output.poll(),
    {
        self.combined.poll_next(&self.inputs, waker)
    }
}

/// The latest values of six inputs, and which of them have completed.
pub struct Inputs6<T1, T2, T3, T4, T5, T6> {
    pub latest1: Option<T1>,
    pub done1: bool,
    pub latest2: Option<T2>,
    pub done2: bool,
    pub latest3: Option<T3>,
    pub done3: bool,
    pub latest4: Option<T4>,
    pub done4: bool,
    pub latest5: Option<T5>,
    pub done5: bool,
    pub latest6: Option<T6>,
    pub done6: bool,
}

/// An item of one of six inputs.
pub enum Item6<T1, T2, T3, T4, T5, T6> {
    Input1(T1),
    Input2(T2),
    Input3(T3),
    Input4(T4),
    Input5(T5),
    Input6(T6),
}

impl<T1: Clone, T2: Clone, T3: Clone, T4: Clone, T5: Clone, T6: Clone> CombineInputs for Inputs6<T1, T2, T3, T4, T5, T6> {
    type Snapshot = (T1, T2, T3, T4, T5, T6);

    type Item = Item6<T1, T2, T3, T4, T5, T6>;

    open spec fn arity() -> nat {
        6
    }

    open spec fn index_of(item: Item6<T1, T2, T3, T4, T5, T6>) -> int {
        match item {
            Item6::Input1(_) => 0,
            Item6::Input2(_) => 1,
            Item6::Input3(_) => 2,
            Item6::Input4(_) => 3,
            Item6::Input5(_) => 4,
            Item6::Input6(_) => 5,
        }
    }

    open spec fn latest(self, index: int) -> Option<Item6<T1, T2, T3, T4, T5, T6>> {
        if index == 0 {
            match self.latest1 {
                Some(item) => Some(Item6::Input1(item)),
                None => None,
            }
        } else if index == 1 {
            match self.latest2 {
                Some(item) => Some(Item6::Input2(item)),
                None => None,
            }
        } else if index == 2 {
            match self.latest3 {
                Some(item) => Some(Item6::Input3(item)),
                None => None,
            }
        } else if index == 3 {
            match self.latest4 {
                Some(item) => Some(Item6::Input4(item)),
                None => None,
            }
        } else if index == 4 {
            match self.latest5 {
                Some(item) => Some(Item6::Input5(item)),
                None => None,
            }
        } else if index == 5 {
            match self.latest6 {
                Some(item) => Some(Item6::Input6(item)),
                None => None,
            }
        } else {
            None
        }
    }

    open spec fn is_done(self, index: int) -> bool {
        if index == 0 {
            self.done1
        } else if index == 1 {
            self.done2
        } else if index == 2 {
            self.done3
        } else if index == 3 {
            self.done4
        } else if index == 4 {
            self.done5
        } else if index == 5 {
            self.done6
        } else {
            true
        }
    }

    open spec fn with_item(self, item: Item6<T1, T2, T3, T4, T5, T6>) -> Self {
        match item {
            Item6::Input1(item) => Inputs6 { latest1: Some(item), ..self },
            Item6::Input2(item) => Inputs6 { latest2: Some(item), ..self },
            Item6::Input3(item) => Inputs6 { latest3: Some(item), ..self },
            Item6::Input4(item) => Inputs6 { latest4: Some(item), ..self },
            Item6::Input5(item) => Inputs6 { latest5: Some(item), ..self },
            Item6::Input6(item) => Inputs6 { latest6: Some(item), ..self },
        }
    }

    open spec fn with_end(self, index: int) -> Self {
        if index == 0 {
            Inputs6 { done1: true, ..self }
        } else if index == 1 {
            Inputs6 { done2: true, ..self }
        } else if index == 2 {
            Inputs6 { done3: true, ..self }
        } else if index == 3 {
            Inputs6 { done4: true, ..self }
        } else if index == 4 {
            Inputs6 { done5: true, ..self }
        } else if index == 5 {
            Inputs6 { done6: true, ..self }
        } else {
            self
        }
    }

    open spec fn shows(snapshot: (T1, T2, T3, T4, T5, T6), item: Item6<T1, T2, T3, T4, T5, T6>) -> bool {
        match item {
            Item6::Input1(item) => cloned(item, snapshot.0),
            Item6::Input2(item) => cloned(item, snapshot.1),
            Item6::Input3(item) => cloned(item, snapshot.2),
            Item6::Input4(item) => cloned(item, snapshot.3),
            Item6::Input5(item) => cloned(item, snapshot.4),
            Item6::Input6(item) => cloned(item, snapshot.5),
        }
    }

    open spec fn all_present(self) -> bool {
        &&& self.latest1 is Some
        &&& self.latest2 is Some
        &&& self.latest3 is Some
        &&& self.latest4 is Some
        &&& self.latest5 is Some
        &&& self.latest6 is Some
    }

    open spec fn is_over(self) -> bool {
        ||| self.done1 && self.latest1 is None
        ||| self.done2 && self.latest2 is None
        ||| self.done3 && self.latest3 is None
        ||| self.done4 && self.latest4 is None
        ||| self.done5 && self.latest5 is None
        ||| self.done6 && self.latest6 is None
        ||| self.done1 && self.done2 && self.done3 && self.done4 && self.done5 && self.done6
    }

    open spec fn is_snapshot(self, snapshot: (T1, T2, T3, T4, T5, T6)) -> bool {
        &&& self.latest1 is Some && cloned(self.latest1->0, snapshot.0)
        &&& self.latest2 is Some && cloned(self.latest2->0, snapshot.1)
        &&& self.latest3 is Some && cloned(self.latest3->0, snapshot.2)
        &&& self.latest4 is Some && cloned(self.latest4->0, snapshot.3)
        &&& self.latest5 is Some && cloned(self.latest5->0, snapshot.4)
        &&& self.latest6 is Some && cloned(self.latest6->0, snapshot.5)
    }

    proof fn lemma_snapshot_needs_every_value(self, snapshot: (T1, T2, T3, T4, T5, T6)) {
    }

    proof fn lemma_item_replaces_the_latest(self, item: Item6<T1, T2, T3, T4, T5, T6>, index: int) {
    }

    proof fn lemma_end_keeps_the_latest(self, ended: int, index: int) {
    }

    proof fn lemma_over(self) {
        assert(self.is_done(0) == self.done1 && (self.latest(0) is None <==> self.latest1 is None));
        assert(self.is_done(1) == self.done2 && (self.latest(1) is None <==> self.latest2 is None));
        assert(self.is_done(2) == self.done3 && (self.latest(2) is None <==> self.latest3 is None));
        assert(self.is_done(3) == self.done4 && (self.latest(3) is None <==> self.latest4 is None));
        assert(self.is_done(4) == self.done5 && (self.latest(4) is None <==> self.latest5 is None));
        assert(self.is_done(5) == self.done6 && (self.latest(5) is None <==> self.latest6 is None));
    }

    proof fn lemma_values_are_the_latest(self, snapshot: (T1, T2, T3, T4, T5, T6)) {
        assert(self.latest(0) is Some <==> self.latest1 is Some);
        assert(self.latest(1) is Some <==> self.latest2 is Some);
        assert(self.latest(2) is Some <==> self.latest3 is Some);
        assert(self.latest(3) is Some <==> self.latest4 is Some);
        assert(self.latest(4) is Some <==> self.latest5 is Some);
        assert(self.latest(5) is Some <==> self.latest6 is Some);
    }

    fn snapshot(&self) -> (snapshot: Option<(T1, T2, T3, T4, T5, T6)>) {
        let item1 = match &self.latest1 {
            Some(item) => item.clone(),
            None => return None,
        };
        let item2 = match &self.latest2 {
            Some(item) => item.clone(),
            None => return None,
        };
        let item3 = match &self.latest3 {
            Some(item) => item.clone(),
            None => return None,
        };
        let item4 = match &self.latest4 {
            Some(item) => item.clone(),
            None => return None,
        };
        let item5 = match &self.latest5 {
            Some(item) => item.clone(),
            None => return None,
        };
        let item6 = match &self.latest6 {
            Some(item) => item.clone(),
            None => return None,
        };
        Some((item1, item2, item3, item4, item5, item6))
    }

    fn over(&self) -> (over: bool) {
        (self.done1 && self.latest1.is_none())
            || (self.done2 && self.latest2.is_none())
            || (self.done3 && self.latest3.is_none())
            || (self.done4 && self.latest4.is_none())
            || (self.done5 && self.latest5.is_none())
            || (self.done6 && self.latest6.is_none())
            || (self.done1 && self.done2 && self.done3 && self.done4 && self.done5 && self.done6)
    }
}

/// A hot, conflating combination of six input streams.
pub struct CombineLatest6Stream<T1: Clone, T2: Clone, T3: Clone, T4: Clone, T5: Clone, T6: Clone, W> {
    inputs: Inputs6<T1, T2, T3, T4, T5, T6>,
    combined: Combined<(T1, T2, T3, T4, T5, T6), W>,
}

impl<T1: Clone, T2: Clone, T3: Clone, T4: Clone, T5: Clone, T6: Clone, W> View for CombineLatest6Stream<T1, T2, T3, T4, T5, T6, W> {
    type V = CombineState<Inputs6<T1, T2, T3, T4, T5, T6>, W>;

    closed spec fn view(&self) -> CombineState<Inputs6<T1, T2, T3, T4, T5, T6>, W> {
        self.combined.with(self.inputs)
    }
}

impl<T1: Clone, T2: Clone, T3: Clone, T4: Clone, T5: Clone, T6: Clone, W> CombineLatest6Stream<T1, T2, T3, T4, T5, T6, W> {
    /// A combination whose inputs have produced nothing yet.
    pub fn new() -> (stream: Self)
        ensures
            stream@.wf(),
            stream@ == CombineState::<Inputs6<T1, T2, T3, T4, T5, T6>, W>::fresh(
                (Inputs6 {
                    latest1: None,
                    done1: false,
                    latest2: None,
                    done2: false,
                    latest3: None,
                    done3: false,
                    latest4: None,
                    done4: false,
                    latest5: None,
                    done5: false,
                    latest6: None,
                    done6: false,
                }),
            ),
    {
        let inputs = Inputs6 {
            latest1: None,
            done1: false,
            latest2: None,
            done2: false,
            latest3: None,
            done3: false,
            latest4: None,
            done4: false,
            latest5: None,
            done5: false,
            latest6: None,
            done6: false,
        };
        let combined = Combined::new(&inputs);
        CombineLatest6Stream { inputs, combined }
    }

    /// Notes that the driver runs, and hands out the waker to wake.
    pub fn mark_driver_started(&mut self) -> (wake: Option<W>)
        requires
            old(self)@.wf(),
        ensures
            final(self)@.wf(),
            wake == old(self)@.output.waker,
            final(self)@ == (CombineState {
                output: HotState { driver_started: true, waker: None, ..old(self)@.output },
                ..old(self)@
            }),
    {
        self.combined.mark_driver_started(&self.inputs)
    }

    /// Reports what the first input gave next: an item, or its end.
    pub fn input1_next(&mut self, item: Option<T1>) -> (turn: DriverTurn<W>)
        requires
            old(self)@.wf(),
            !old(self)@.output.done,
            !old(self)@.inputs.done1,
        ensures
            final(self)@.wf(),
            match item {
                Some(item) => old(self)@.published(
                    (Inputs6 { latest1: Some(item), ..old(self)@.inputs }),
                    final(self)@,
                    turn,
                ),
                None => old(self)@.settled(
                    (Inputs6 { done1: true, ..old(self)@.inputs }),
                    final(self)@,
                    turn,
                ),
            },
    {
        match item {
            Some(item) => {
                self.inputs.latest1 = Some(item);
                self.combined.publish(&self.inputs)
            },
            None => {
                self.inputs.done1 = true;
                self.combined.settle(&self.inputs)
            },
        }
    }

    /// Reports what the second input gave next: an item, or its end.
    pub fn input2_next(&mut self, item: Option<T2>) -> (turn: DriverTurn<W>)
        requires
            old(self)@.wf(),
            !old(self)@.output.done,
            !old(self)@.inputs.done2,
        ensures
            final(self)@.wf(),
            match item {
                Some(item) => old(self)@.published(
                    (Inputs6 { latest2: Some(item), ..old(self)@.inputs }),
                    final(self)@,
                    turn,
                ),
                None => old(self)@.settled(
                    (Inputs6 { done2: true, ..old(self)@.inputs }),
                    final(self)@,
                    turn,
                ),
            },
    {
        match item {
            Some(item) => {
                self.inputs.latest2 = Some(item);
                self.combined.publish(&self.inputs)
            },
            None => {
                self.inputs.done2 = true;
                self.combined.settle(&self.inputs)
            },
        }
    }

    /// Reports what the third input gave next: an item, or its end.
    pub fn input3_next(&mut self, item: Option<T3>) -> (turn: DriverTurn<W>)
        requires
            old(self)@.wf(),
            !old(self)@.output.done,
            !old(self)@.inputs.done3,
        ensures
            final(self)@.wf(),
            match item {
                Some(item) => old(self)@.published(
                    (Inputs6 { latest3: Some(item), ..old(self)@.inputs }),
                    final(self)@,
                    turn,
                ),
                None => old(self)@.settled(
                    (Inputs6 { done3: true, ..old(self)@.inputs }),
                    final(self)@,
                    turn,
                ),
            },
    {
        match item {
            Some(item) => {
                self.inputs.latest3 = Some(item);
                self.combined.publish(&self.inputs)
            },
            None => {
                self.inputs.done3 = true;
                self.combined.settle(&self.inputs)
            },
        }
    }

    /// Reports what the fourth input gave next: an item, or its end.
    pub fn input4_next(&mut self, item: Option<T4>) -> (turn: DriverTurn<W>)
        requires
            old(self)@.wf(),
            !old(self)@.output.done,
            !old(self)@.inputs.done4,
        ensures
            final(self)@.wf(),
            match item {
                Some(item) => old(self)@.published(
                    (Inputs6 { latest4: Some(item), ..old(self)@.inputs }),
                    final(self)@,
                    turn,
                ),
                None => old(self)@.settled(
                    (Inputs6 { done4: true, ..old(self)@.inputs }),
                    final(self)@,
                    turn,
                ),
            },
    {
        match item {
            Some(item) => {
                self.inputs.latest4 = Some(item);
                self.combined.publish(&self.inputs)
            },
            None => {
                self.inputs.done4 = true;
                self.combined.settle(&self.inputs)
            },
        }
    }

    /// Reports what the fifth input gave next: an item, or its end.
    pub fn input5_next(&mut self, item: Option<T5>) -> (turn: DriverTurn<W>)
        requires
            old(self)@.wf(),
            !old(self)@.output.done,
            !old(self)@.inputs.done5,
        ensures
            final(self)@.wf(),
            match item {
                Some(item) => old(self)@.published(
                    (Inputs6 { latest5: Some(item), ..old(self)@.inputs }),
                    final(self)@,
                    turn,
                ),
                None => old(self)@.settled(
                    (Inputs6 { done5: true, ..old(self)@.inputs }),
                    final(self)@,
                    turn,
                ),
            },
    {
        match item {
            Some(item) => {
                self.inputs.latest5 = Some(item);
                self.combined.publish(&self.inputs)
            },
            None => {
                self.inputs.done5 = true;
                self.combined.settle(&self.inputs)
            },
        }
    }

    /// Reports what the sixth input gave next: an item, or its end.
    pub fn input6_next(&mut self, item: Option<T6>) -> (turn: DriverTurn<W>)
        requires
            old(self)@.wf(),
            !old(self)@.output.done,
            !old(self)@.inputs.done6,
        ensures
            final(self)@.wf(),
            match item {
                Some(item) => old(self)@.published(
                    (Inputs6 { latest6: Some(item), ..old(self)@.inputs }),
                    final(self)@,
                    turn,
                ),
                None => old(self)@.settled(
                    (Inputs6 { done6: true, ..old(self)@.inputs }),
                    final(self)@,
                    turn,
                ),
            },
    {
        match item {
            Some(item) => {
                self.inputs.latest6 = Some(item);
                self.combined.publish(&self.inputs)
            },
            None => {
                self.inputs.done6 = true;
                self.combined.settle(&self.inputs)
            },
        }
    }

    /// The driver is gone, for whatever reason: completes the stream.
    pub fn close(&mut self) -> (wake: Option<W>)
        requires
            old(self)@.wf(),
        ensures
            final(self)@.wf(),
            wake == old(self)@.output.waker,
            final(self)@ == (CombineState { output: old(self)@.output.closed(), ..old(self)@ }),
    {
        self.combined.close(&self.inputs)
    }

    /// The consumer's poll, with the waker of the polling task.
    pub fn poll_next(&mut self, waker: W) -> (outcome: StreamPoll<(T1, T2, T3, T4, T5, T6)>)
        requires
            old(self)@.wf(),
        ensures
            final(self)@.wf(),
            final(self)@ == (CombineState {
                output: old(self)@.output.polled(waker),
                ..old(self)@
            }),
            outcome == old(self)@.output.poll(),
    {
        self.combined.poll_next(&self.inputs, waker)
    }
}

/// The latest values of seven inputs, and which of them have completed.
pub struct Inputs7<T1, T2, T3, T4, T5, T6, T7> {
    pub latest1: Option<T1>,
    pub done1: bool,
    pub latest2: Option<T2>,
    pub done2: bool,
    pub latest3: Option<T3>,
    pub done3: bool,
    pub latest4: Option<T4>,
    pub done4: bool,
    pub latest5: Option<T5>,
    pub done5: bool,
    pub latest6: Option<T6>,
    pub done6: bool,
    pub latest7: Option<T7>,
    pub done7: bool,
}

/// An item of one of seven inputs.
pub enum Item7<T1, T2, T3, T4, T5, T6, T7> {
    Input1(T1),
    Input2(T2),
    Input3(T3),
    Input4(T4),
    Input5(T5),
    Input6(T6),
    Input7(T7),
}

impl<T1: Clone, T2: Clone, T3: Clone, T4: Clone, T5: Clone, T6: Clone, T7: Clone> CombineInputs for Inputs7<T1, T2, T3, T4, T5, T6, T7> {
    type Snapshot = (T1, T2, T3, T4, T5, T6, T7);

    type Item = Item7<T1, T2, T3, T4, T5, T6, T7>;

    open spec fn arity() -> nat {
        7
    }

    open spec fn index_of(item: Item7<T1, T2, T3, T4, T5, T6, T7>) -> int {
        match item {
            Item7::Input1(_) => 0,
            Item7::Input2(_) => 1,
            Item7::Input3(_) => 2,
            Item7::Input4(_) => 3,
            Item7::Input5(_) => 4,
            Item7::Input6(_) => 5,
            Item7::Input7(_) => 6,
        }
    }

    open spec fn latest(self, index: int) -> Option<Item7<T1, T2, T3, T4, T5, T6, T7>> {
        if index == 0 {
            match self.latest1 {
                Some(item) => Some(Item7::Input1(item)),
                None => None,
            }
        } else if index == 1 {
            match self.latest2 {
                Some(item) => Some(Item7::Input2(item)),
                None => None,
            }
        } else if index == 2 {
            match self.latest3 {
                Some(item) => Some(Item7::Input3(item)),
                None => None,
            }
        } else if index == 3 {
            match self.latest4 {
                Some(item) => Some(Item7::Input4(item)),
                None => None,
            }
        } else if index == 4 {
            match self.latest5 {
                Some(item) => Some(Item7::Input5(item)),
                None => None,
            }
        } else if index == 5 {
            match self.latest6 {
                Some(item) => Some(Item7::Input6(item)),
                None => None,
            }
        } else if index == 6 {
            match self.latest7 {
                Some(item) => Some(Item7::Input7(item)),
                None => None,
            }
        } else {
            None
        }
    }

    open spec fn is_done(self, index: int) -> bool {
        if index == 0 {
            self.done1
        } else if index == 1 {
            self.done2
        } else if index == 2 {
            self.done3
        } else if index == 3 {
            self.done4
        } else if index == 4 {
            self.done5
        } else if index == 5 {
            self.done6
        } else if index == 6 {
            self.done7
        } else {
            true
        }
    }

    open spec fn with_item(self, item: Item7<T1, T2, T3, T4, T5, T6, T7>) -> Self {
        match item {
            Item7::Input1(item) => Inputs7 { latest1: Some(item), ..self },
            Item7::Input2(item) => Inputs7 { latest2: Some(item), ..self },
            Item7::Input3(item) => Inputs7 { latest3: Some(item), ..self },
            Item7::Input4(item) => Inputs7 { latest4: Some(item), ..self },
            Item7::Input5(item) => Inputs7 { latest5: Some(item), ..self },
            Item7::Input6(item) => Inputs7 { latest6: Some(item), ..self },
            Item7::Input7(item) => Inputs7 { latest7: Some(item), ..self },
        }
    }

    open spec fn with_end(self, index: int) -> Self {
        if index == 0 {
            Inputs7 { done1: true, ..self }
        } else if index == 1 {
            Inputs7 { done2: true, ..self }
        } else if index == 2 {
            Inputs7 { done3: true, ..self }
        } else if index == 3 {
            Inputs7 { done4: true, ..self }
        } else if index == 4 {
            Inputs7 { done5: true, ..self }
        } else if index == 5 {
            Inputs7 { done6: true, ..self }
        } else if index == 6 {
            Inputs7 { done7: true, ..self }
        } else {
            self
        }
    }

    open spec fn shows(snapshot: (T1, T2, T3, T4, T5, T6, T7), item: Item7<T1, T2, T3, T4, T5, T6, T7>) -> bool {
        match item {
            Item7::Input1(item) => cloned(item, snapshot.0),
            Item7::Input2(item) => cloned(item, snapshot.1),
            Item7::Input3(item) => cloned(item, snapshot.2),
            Item7::Input4(item) => cloned(item, snapshot.3),
            Item7::Input5(item) => cloned(item, snapshot.4),
            Item7::Input6(item) => cloned(item, snapshot.5),
            Item7::Input7(item) => cloned(item, snapshot.6),
        }
    }

    open spec fn all_present(self) -> bool {
        &&& self.latest1 is Some
        &&& self.latest2 is Some
        &&& self.latest3 is Some
        &&& self.latest4 is Some
        &&& self.latest5 is Some
        &&& self.latest6 is Some
        &&& self.latest7 is Some
    }

    open spec fn is_over(self) -> bool {
        ||| self.done1 && self.latest1 is None
        ||| self.done2 && self.latest2 is None
        ||| self.done3 && self.latest3 is None
        ||| self.done4 && self.latest4 is None
        ||| self.done5 && self.latest5 is None
        ||| self.done6 && self.latest6 is None
        ||| self.done7 && self.latest7 is None
        ||| self.done1 && self.done2 && self.done3 && self.done4 && self.done5 && self.done6 && self.done7
    }

    open spec fn is_snapshot(self, snapshot: (T1, T2, T3, T4, T5, T6, T7)) -> bool {
        &&& self.latest1 is Some && cloned(self.latest1->0, snapshot.0)
        &&& self.latest2 is Some && cloned(self.latest2->0, snapshot.1)
        &&& self.latest3 is Some && cloned(self.latest3->0, snapshot.2)
        &&& self.latest4 is Some && cloned(self.latest4->0, snapshot.3)
        &&& self.latest5 is Some && cloned(self.latest5->0, snapshot.4)
        &&& self.latest6 is Some && cloned(self.latest6->0, snapshot.5)
        &&& self.latest7 is Some && cloned(self.latest7->0, snapshot.6)
    }

    proof fn lemma_snapshot_needs_every_value(self, snapshot: (T1, T2, T3, T4, T5, T6, T7)) {
    }

    proof fn lemma_item_replaces_the_latest(self, item: Item7<T1, T2, T3, T4, T5, T6, T7>, index: int) {
    }

    proof fn lemma_end_keeps_the_latest(self, ended: int, index: int) {
    }

    proof fn lemma_over(self) {
        assert(self.is_done(0) == self.done1 && (self.latest(0) is None <==> self.latest1 is None));
        assert(self.is_done(1) == self.done2 && (self.latest(1) is None <==> self.latest2 is None));
        assert(self.is_done(2) == self.done3 && (self.latest(2) is None <==> self.latest3 is None));
        assert(self.is_done(3) == self.done4 && (self.latest(3) is None <==> self.latest4 is None));
        assert(self.is_done(4) == self.done5 && (self.latest(4) is None <==> self.latest5 is None));
        assert(self.is_done(5) == self.done6 && (self.latest(5) is None <==> self.latest6 is None));
        assert(self.is_done(6) == self.done7 && (self.latest(6) is None <==> self.latest7 is None));
    }

    proof fn lemma_values_are_the_latest(self, snapshot: (T1, T2, T3, T4, T5, T6, T7)) {
        assert(self.latest(0) is Some <==> self.latest1 is Some);
        assert(self.latest(1) is Some <==> self.latest2 is Some);
        assert(self.latest(2) is Some <==> self.latest3 is Some);
        assert(self.latest(3) is Some <==> self.latest4 is Some);
        assert(self.latest(4) is Some <==> self.latest5 is Some);
        assert(self.latest(5) is Some <==> self.latest6 is Some);
        assert(self.latest(6) is Some <==> self.latest7 is Some);
    }

    fn snapshot(&self) -> (snapshot: Option<(T1, T2, T3, T4, T5, T6, T7)>) {
        let item1 = match &self.latest1 {
            Some(item) => item.clone(),
            None => return None,
        };
        let item2 = match &self.latest2 {
            Some(item) => item.clone(),
            None => return None,
        };
        let item3 = match &self.latest3 {
            Some(item) => item.clone(),
            None => return None,
        };
        let item4 = match &self.latest4 {
            Some(item) => item.clone(),
            None => return None,
        };
        let item5 = match &self.latest5 {
            Some(item) => item.clone(),
            None => return None,
        };
        let item6 = match &self.latest6 {
            Some(item) => item.clone(),
            None => return None,
        };
        let item7 = match &self.latest7 {
            Some(item) => item.clone(),
            None => return None,
        };
        Some((item1, item2, item3, item4, item5, item6, item7))
    }

    fn over(&self) -> (over: bool) {
        (self.done1 && self.latest1.is_none())
            || (self.done2 && self.latest2.is_none())
            || (self.done3 && self.latest3.is_none())
            || (self.done4 && self.latest4.is_none())
            || (self.done5 && self.latest5.is_none())
            || (self.done6 && self.latest6.is_none())
            || (self.done7 && self.latest7.is_none())
            || (self.done1 && self.done2 && self.done3 && self.done4 && self.done5 && self.done6 && self.done7)
    }
}

/// A hot, conflating combination of seven input streams.
pub struct CombineLatest7Stream<T1: Clone, T2: Clone, T3: Clone, T4: Clone, T5: Clone, T6: Clone, T7: Clone, W> {
    inputs: Inputs7<T1, T2, T3, T4, T5, T6, T7>,
    combined: Combined<(T1, T2, T3, T4, T5, T6, T7), W>,
}

impl<T1: Clone, T2: Clone, T3: Clone, T4: Clone, T5: Clone, T6: Clone, T7: Clone, W> View for CombineLatest7Stream<T1, T2, T3, T4, T5, T6, T7, W> {
    type V = CombineState<Inputs7<T1, T2, T3, T4, T5, T6, T7>, W>;

    closed spec fn view(&self) -> CombineState<Inputs7<T1, T2, T3, T4, T5, T6, T7>, W> {
        self.combined.with(self.inputs)
    }
}

impl<T1: Clone, T2: Clone, T3: Clone, T4: Clone, T5: Clone, T6: Clone, T7: Clone, W> CombineLatest7Stream<T1, T2, T3, T4, T5, T6, T7, W> {
    /// A combination whose inputs have produced nothing yet.
    pub fn new() -> (stream: Self)
        ensures
            stream@.wf(),
            stream@ == CombineState::<Inputs7<T1, T2, T3, T4, T5, T6, T7>, W>::fresh(
                (Inputs7 {
                    latest1: None,
                    done1: false,
                    latest2: None,
                    done2: false,
                    latest3: None,
                    done3: false,
                    latest4: None,
                    done4: false,
                    latest5: None,
                    done5: false,
                    latest6: None,
                    done6: false,
                    latest7: None,
                    done7: false,
                }),
            ),
    {
        let inputs = Inputs7 {
            latest1: None,
            done1: false,
            latest2: None,
            done2: false,
            latest3: None,
            done3: false,
            latest4: None,
            done4: false,
            latest5: None,
            done5: false,
            latest6: None,
            done6: false,
            latest7: None,
            done7: false,
        };
        let combined = Combined::new(&inputs);
        CombineLatest7Stream { inputs, combined }
    }

    /// Notes that the driver runs, and hands out the waker to wake.
    pub fn mark_driver_started(&mut self) -> (wake: Option<W>)
        requires
            old(self)@.wf(),
        ensures
            final(self)@.wf(),
            wake == old(self)@.output.waker,
            final(self)@ == (CombineState {
                output: HotState { driver_started: true, waker: None, ..old(self)@.output },
                ..old(self)@
            }),
    {
        self.combined.mark_driver_started(&self.inputs)
    }

    /// Reports what the first input gave next: an item, or its end.
    pub fn input1_next(&mut self, item: Option<T1>) -> (turn: DriverTurn<W>)
        requires
            old(self)@.wf(),
            !old(self)@.output.done,
            !old(self)@.inputs.done1,
        ensures
            final(self)@.wf(),
            match item {
                Some(item) => old(self)@.published(
                    (Inputs7 { latest1: Some(item), ..old(self)@.inputs }),
                    final(self)@,
                    turn,
                ),
                None => old(self)@.settled(
                    (Inputs7 { done1: true, ..old(self)@.inputs }),
                    final(self)@,
                    turn,
                ),
            },
    {
        match item {
            Some(item) => {
                self.inputs.latest1 = Some(item);
                self.combined.publish(&self.inputs)
            },
            None => {
                self.inputs.done1 = true;
                self.combined.settle(&self.inputs)
            },
        }
    }

    /// Reports what the second input gave next: an item, or its end.
    pub fn input2_next(&mut self, item: Option<T2>) -> (turn: DriverTurn<W>)
        requires
            old(self)@.wf(),
            !old(self)@.output.done,
            !old(self)@.inputs.done2,
        ensures
            final(self)@.wf(),
            match item {
                Some(item) => old(self)@.published(
                    (Inputs7 { latest2: Some(item), ..old(self)@.inputs }),
                    final(self)@,
                    turn,
                ),
                None => old(self)@.settled(
                    (Inputs7 { done2: true, ..old(self)@.inputs }),
                    final(self)@,
                    turn,
                ),
            },
    {
        match item {
            Some(item) => {
                self.inputs.latest2 = Some(item);
                self.combined.publish(&self.inputs)
            },
            None => {
                self.inputs.done2 = true;
                self.combined.settle(&self.inputs)
            },
        }
    }

    /// Reports what the third input gave next: an item, or its end.
    pub fn input3_next(&mut self, item: Option<T3>) -> (turn: DriverTurn<W>)
        requires
            old(self)@.wf(),
            !old(self)@.output.done,
            !old(self)@.inputs.done3,
        ensures
            final(self)@.wf(),
            match item {
                Some(item) => old(self)@.published(
                    (Inputs7 { latest3: Some(item), ..old(self)@.inputs }),
                    final(self)@,
                    turn,
                ),
                None => old(self)@.settled(
                    (Inputs7 { done3: true, ..old(self)@.inputs }),
                    final(self)@,
                    turn,
                ),
            },
    {
        match item {
            Some(item) => {
                self.inputs.latest3 = Some(item);
                self.combined.publish(&self.inputs)
            },
            None => {
                self.inputs.done3 = true;
                self.combined.settle(&self.inputs)
            },
        }
    }

    /// Reports what the fourth input gave next: an item, or its end.
    pub fn input4_next(&mut self, item: Option<T4>) -> (turn: DriverTurn<W>)
        requires
            old(self)@.wf(),
            !old(self)@.output.done,
            !old(self)@.inputs.done4,
        ensures
            final(self)@.wf(),
            match item {
                Some(item) => old(self)@.published(
                    (Inputs7 { latest4: Some(item), ..old(self)@.inputs }),
                    final(self)@,
                    turn,
                ),
                None => old(self)@.settled(
                    (Inputs7 { done4: true, ..old(self)@.inputs }),
                    final(self)@,
                    turn,
                ),
            },
    {
        match item {
            Some(item) => {
                self.inputs.latest4 = Some(item);
                self.combined.publish(&self.inputs)
            },
            None => {
                self.inputs.done4 = true;
                self.combined.settle(&self.inputs)
            },
        }
    }

    /// Reports what the fifth input gave next: an item, or its end.
    pub fn input5_next(&mut self, item: Option<T5>) -> (turn: DriverTurn<W>)
        requires
            old(self)@.wf(),
            !old(self)@.output.done,
            !old(self)@.inputs.done5,
        ensures
            final(self)@.wf(),
            match item {
                Some(item) => old(self)@.published(
                    (Inputs7 { latest5: Some(item), ..old(self)@.inputs }),
                    final(self)@,
                    turn,
                ),
                None => old(self)@.settled(
                    (Inputs7 { done5: true, ..old(self)@.inputs }),
                    final(self)@,
                    turn,
                ),
            },
    {
        match item {
            Some(item) => {
                self.inputs.latest5 = Some(item);
                self.combined.publish(&self.inputs)
            },
            None => {
                self.inputs.done5 = true;
                self.combined.settle(&self.inputs)
            },
        }
    }

    /// Reports what the sixth input gave next: an item, or its end.
    pub fn input6_next(&mut self, item: Option<T6>) -> (turn: DriverTurn<W>)
        requires
            old(self)@.wf(),
            !old(self)@.output.done,
            !old(self)@.inputs.done6,
        ensures
            final(self)@.wf(),
            match item {
                Some(item) => old(self)@.published(
                    (Inputs7 { latest6: Some(item), ..old(self)@.inputs }),
                    final(self)@,
                    turn,
                ),
                None => old(self)@.settled(
                    (Inputs7 { done6: true, ..old(self)@.inputs }),
                    final(self)@,
                    turn,
                ),
            },
    {
        match item {
            Some(item) => {
                self.inputs.latest6 = Some(item);
                self.combined.publish(&self.inputs)
            },
            None => {
                self.inputs.done6 = true;
                self.combined.settle(&self.inputs)
            },
        }
    }

    /// Reports what the seventh input gave next: an item, or its end.
    pub fn input7_next(&mut self, item: Option<T7>) -> (turn: DriverTurn<W>)
        requires
            old(self)@.wf(),
            !old(self)@.output.done,
            !old(self)@.inputs.done7,
        ensures
            final(self)@.wf(),
            match item {
                Some(item) => old(self)@.published(
                    (Inputs7 { latest7: Some(item), ..old(self)@.inputs }),
                    final(self)@,
                    turn,
                ),
                None => old(self)@.settled(
                    (Inputs7 { done7: true, ..old(self)@.inputs }),
                    final(self)@,
                    turn,
                ),
            },
    {
        match item {
            Some(item) => {
                self.inputs.latest7 = Some(item);
                self.combined.publish(&self.inputs)
            },
            None => {
                self.inputs.done7 = true;
                self.combined.settle(&self.inputs)
            },
        }
    }

    /// The driver is gone, for whatever reason: completes the stream.
    pub fn close(&mut self) -> (wake: Option<W>)
        requires
            old(self)@.wf(),
        ensures
            final(self)@.wf(),
            wake == old(self)@.output.waker,
            final(self)@ == (CombineState { output: old(self)@.output.closed(), ..old(self)@ }),
    {
        self.combined.close(&self.inputs)
    }

    /// The consumer's poll, with the waker of the polling task.
    pub fn poll_next(&mut self, waker: W) -> (outcome: StreamPoll<(T1, T2, T3, T4, T5, T6, T7)>)
        requires
            old(self)@.wf(),
        ensures
            final(self)@.wf(),
            final(self)@ == (CombineState {
                output: old(self)@.output.polled(waker),
                ..old(self)@
            }),
            outcome == old(self)@.output.poll(),
    {
        self.combined.poll_next(&self.inputs, waker)
    }
}

/// The latest values of eight inputs, and which of them have completed.
pub struct Inputs8<T1, T2, T3, T4, T5, T6, T7, T8> {
    pub latest1: Option<T1>,
    pub done1: bool,
    pub latest2: Option<T2>,
    pub done2: bool,
    pub latest3: Option<T3>,
    pub done3: bool,
    pub latest4: Option<T4>,
    pub done4: bool,
    pub latest5: Option<T5>,
    pub done5: bool,
    pub latest6: Option<T6>,
    pub done6: bool,
    pub latest7: Option<T7>,
    pub done7: bool,
    pub latest8: Option<T8>,
    pub done8: bool,
}

/// An item of one of eight inputs.
pub enum Item8<T1, T2, T3, T4, T5, T6, T7, T8> {
    Input1(T1),
    Input2(T2),
    Input3(T3),
    Input4(T4),
    Input5(T5),
    Input6(T6),
    Input7(T7),
    Input8(T8),
}

impl<T1: Clone, T2: Clone, T3: Clone, T4: Clone, T5: Clone, T6: Clone, T7: Clone, T8: Clone> CombineInputs for Inputs8<T1, T2, T3, T4, T5, T6, T7, T8> {
    type Snapshot = (T1, T2, T3, T4, T5, T6, T7, T8);

    type Item = Item8<T1, T2, T3, T4, T5, T6, T7, T8>;

    open spec fn arity() -> nat {
        8
    }

    open spec fn index_of(item: Item8<T1, T2, T3, T4, T5, T6, T7, T8>) -> int {
        match item {
            Item8::Input1(_) => 0,
            Item8::Input2(_) => 1,
            Item8::Input3(_) => 2,
            Item8::Input4(_) => 3,
            Item8::Input5(_) => 4,
            Item8::Input6(_) => 5,
            Item8::Input7(_) => 6,
            Item8::Input8(_) => 7,
        }
    }

    open spec fn latest(self, index: int) -> Option<Item8<T1, T2, T3, T4, T5, T6, T7, T8>> {
        if index == 0 {
            match self.latest1 {
                Some(item) => Some(Item8::Input1(item)),
                None => None,
            }
        } else if index == 1 {
            match self.latest2 {
                Some(item) => Some(Item8::Input2(item)),
                None => None,
            }
        } else if index == 2 {
            match self.latest3 {
                Some(item) => Some(Item8::Input3(item)),
                None => None,
            }
        } else if index == 3 {
            match self.latest4 {
                Some(item) => Some(Item8::Input4(item)),
                None => None,
            }
        } else if index == 4 {
            match self.latest5 {
                Some(item) => Some(Item8::Input5(item)),
                None => None,
            }
        } else if index == 5 {
            match self.latest6 {
                Some(item) => Some(Item8::Input6(item)),
                None => None,
            }
        } else if index == 6 {
            match self.latest7 {
                Some(item) => Some(Item8::Input7(item)),
                None => None,
            }
        } else if index == 7 {
            match self.latest8 {
                Some(item) => Some(Item8::Input8(item)),
                None => None,
            }
        } else {
            None
        }
    }

    open spec fn is_done(self, index: int) -> bool {
        if index == 0 {
            self.done1
        } else if index == 1 {
            self.done2
        } else if index == 2 {
            self.done3
        } else if index == 3 {
            self.done4
        } else if index == 4 {
            self.done5
        } else if index == 5 {
            self.done6
        } else if index == 6 {
            self.done7
        } else if index == 7 {
            self.done8
        } else {
            true
        }
    }

    open spec fn with_item(self, item: Item8<T1, T2, T3, T4, T5, T6, T7, T8>) -> Self {
        match item {
            Item8::Input1(item) => Inputs8 { latest1: Some(item), ..self },
            Item8::Input2(item) => Inputs8 { latest2: Some(item), ..self },
            Item8::Input3(item) => Inputs8 { latest3: Some(item), ..self },
            Item8::Input4(item) => Inputs8 { latest4: Some(item), ..self },
            Item8::Input5(item) => Inputs8 { latest5: Some(item), ..self },
            Item8::Input6(item) => Inputs8 { latest6: Some(item), ..self },
            Item8::Input7(item) => Inputs8 { latest7: Some(item), ..self },
            Item8::Input8(item) => Inputs8 { latest8: Some(item), ..self },
        }
    }

    open spec fn with_end(self, index: int) -> Self {
        if index == 0 {
            Inputs8 { done1: true, ..self }
        } else if index == 1 {
            Inputs8 { done2: true, ..self }
        } else if index == 2 {
            Inputs8 { done3: true, ..self }
        } else if index == 3 {
            Inputs8 { done4: true, ..self }
        } else if index == 4 {
            Inputs8 { done5: true, ..self }
        } else if index == 5 {
            Inputs8 { done6: true, ..self }
        } else if index == 6 {
            Inputs8 { done7: true, ..self }
        } else if index == 7 {
            Inputs8 { done8: true, ..self }
        } else {
            self
        }
    }

    open spec fn shows(snapshot: (T1, T2, T3, T4, T5, T6, T7, T8), item: Item8<T1, T2, T3, T4, T5, T6, T7, T8>) -> bool {
        match item {
            Item8::Input1(item) => cloned(item, snapshot.0),
            Item8::Input2(item) => cloned(item, snapshot.1),
            Item8::Input3(item) => cloned(item, snapshot.2),
            Item8::Input4(item) => cloned(item, snapshot.3),
            Item8::Input5(item) => cloned(item, snapshot.4),
            Item8::Input6(item) => cloned(item, snapshot.5),
            Item8::Input7(item) => cloned(item, snapshot.6),
            Item8::Input8(item) => cloned(item, snapshot.7),
        }
    }

    open spec fn all_present(self) -> bool {
        &&& self.latest1 is Some
        &&& self.latest2 is Some
        &&& self.latest3 is Some
        &&& self.latest4 is Some
        &&& self.latest5 is Some
        &&& self.latest6 is Some
        &&& self.latest7 is Some
        &&& self.latest8 is Some
    }

    open spec fn is_over(self) -> bool {
        ||| self.done1 && self.latest1 is None
        ||| self.done2 && self.latest2 is None
        ||| self.done3 && self.latest3 is None
        ||| self.done4 && self.latest4 is None
        ||| self.done5 && self.latest5 is None
        ||| self.done6 && self.latest6 is None
        ||| self.done7 && self.latest7 is None
        ||| self.done8 && self.latest8 is None
        ||| self.done1 && self.done2 && self.done3 && self.done4 && self.done5 && self.done6 && self.done7 && self.done8
    }

    open spec fn is_snapshot(self, snapshot: (T1, T2, T3, T4, T5, T6, T7, T8)) -> bool {
        &&& self.latest1 is Some && cloned(self.latest1->0, snapshot.0)
        &&& self.latest2 is Some && cloned(self.latest2->0, snapshot.1)
        &&& self.latest3 is Some && cloned(self.latest3->0, snapshot.2)
        &&& self.latest4 is Some && cloned(self.latest4->0, snapshot.3)
        &&& self.latest5 is Some && cloned(self.latest5->0, snapshot.4)
        &&& self.latest6 is Some && cloned(self.latest6->0, snapshot.5)
        &&& self.latest7 is Some && cloned(self.latest7->0, snapshot.6)
        &&& self.latest8 is Some && cloned(self.latest8->0, snapshot.7)
    }

    proof fn lemma_snapshot_needs_every_value(self, snapshot: (T1, T2, T3, T4, T5, T6, T7, T8)) {
    }

    proof fn lemma_item_replaces_the_latest(self, item: Item8<T1, T2, T3, T4, T5, T6, T7, T8>, index: int) {
    }

    proof fn lemma_end_keeps_the_latest(self, ended: int, index: int) {
    }

    proof fn lemma_over(self) {
        assert(self.is_done(0) == self.done1 && (self.latest(0) is None <==> self.latest1 is None));
        assert(self.is_done(1) == self.done2 && (self.latest(1) is None <==> self.latest2 is None));
        assert(self.is_done(2) == self.done3 && (self.latest(2) is None <==> self.latest3 is None));
        assert(self.is_done(3) == self.done4 && (self.latest(3) is None <==> self.latest4 is None));
        assert(self.is_done(4) == self.done5 && (self.latest(4) is None <==> self.latest5 is None));
        assert(self.is_done(5) == self.done6 && (self.latest(5) is None <==> self.latest6 is None));
        assert(self.is_done(6) == self.done7 && (self.latest(6) is None <==> self.latest7 is None));
        assert(self.is_done(7) == self.done8 && (self.latest(7) is None <==> self.latest8 is None));
    }

    proof fn lemma_values_are_the_latest(self, snapshot: (T1, T2, T3, T4, T5, T6, T7, T8)) {
        assert(self.latest(0) is Some <==> self.latest1 is Some);
        assert(self.latest(1) is Some <==> self.latest2 is Some);
        assert(self.latest(2) is Some <==> self.latest3 is Some);
        assert(self.latest(3) is Some <==> self.latest4 is Some);
        assert(self.latest(4) is Some <==> self.latest5 is Some);
        assert(self.latest(5) is Some <==> self.latest6 is Some);
        assert(self.latest(6) is Some <==> self.latest7 is Some);
        assert(self.latest(7) is Some <==> self.latest8 is Some);
    }

    fn snapshot(&self) -> (snapshot: Option<(T1, T2, T3, T4, T5, T6, T7, T8)>) {
        let item1 = match &self.latest1 {
            Some(item) => item.clone(),
            None => return None,
        };
        let item2 = match &self.latest2 {
            Some(item) => item.clone(),
            None => return None,
        };
        let item3 = match &self.latest3 {
            Some(item) => item.clone(),
            None => return None,
        };
        let item4 = match &self.latest4 {
            Some(item) => item.clone(),
            None => return None,
        };
        let item5 = match &self.latest5 {
            Some(item) => item.clone(),
            None => return None,
        };
        let item6 = match &self.latest6 {
            Some(item) => item.clone(),
            None => return None,
        };
        let item7 = match &self.latest7 {
            Some(item) => item.clone(),
            None => return None,
        };
        let item8 = match &self.latest8 {
            Some(item) => item.clone(),
            None => return None,
        };
        Some((item1, item2, item3, item4, item5, item6, item7, item8))
    }

    fn over(&self) -> (over: bool) {
        (self.done1 && self.latest1.is_none())
            || (self.done2 && self.latest2.is_none())
            || (self.done3 && self.latest3.is_none())
            || (self.done4 && self.latest4.is_none())
            || (self.done5 && self.latest5.is_none())
            || (self.done6 && self.latest6.is_none())
            || (self.done7 && self.latest7.is_none())
            || (self.done8 && self.latest8.is_none())
            || (self.done1 && self.done2 && self.done3 && self.done4 && self.done5 && self.done6 && self.done7 && self.done8)
    }
}

/// A hot, conflating combination of eight input streams.
pub struct CombineLatest8Stream<T1: Clone, T2: Clone, T3: Clone, T4: Clone, T5: Clone, T6: Clone, T7: Clone, T8: Clone, W> {
    inputs: Inputs8<T1, T2, T3, T4, T5, T6, T7, T8>,
    combined: Combined<(T1, T2, T3, T4, T5, T6, T7, T8), W>,
}

impl<T1: Clone, T2: Clone, T3: Clone, T4: Clone, T5: Clone, T6: Clone, T7: Clone, T8: Clone, W> View for CombineLatest8Stream<T1, T2, T3, T4, T5, T6, T7, T8, W> {
    type V = CombineState<Inputs8<T1, T2, T3, T4, T5, T6, T7, T8>, W>;

    closed spec fn view(&self) -> CombineState<Inputs8<T1, T2, T3, T4, T5, T6, T7, T8>, W> {
        self.combined.with(self.inputs)
    }
}

impl<T1: Clone, T2: Clone, T3: Clone, T4: Clone, T5: Clone, T6: Clone, T7: Clone, T8: Clone, W> CombineLatest8Stream<T1, T2, T3, T4, T5, T6, T7, T8, W> {
    /// A combination whose inputs have produced nothing yet.
    pub fn new() -> (stream: Self)
        ensures
            stream@.wf(),
            stream@ == CombineState::<Inputs8<T1, T2, T3, T4, T5, T6, T7, T8>, W>::fresh(
                (Inputs8 {
                    latest1: None,
                    done1: false,
                    latest2: None,
                    done2: false,
                    latest3: None,
                    done3: false,
                    latest4: None,
                    done4: false,
                    latest5: None,
                    done5: false,
                    latest6: None,
                    done6: false,
                    latest7: None,
                    done7: false,
                    latest8: None,
                    done8: false,
                }),
            ),
    {
        let inputs = Inputs8 {
            latest1: None,
            done1: false,
            latest2: None,
            done2: false,
            latest3: None,
            done3: false,
            latest4: None,
            done4: false,
            latest5: None,
            done5: false,
            latest6: None,
            done6: false,
            latest7: None,
            done7: false,
            latest8: None,
            done8: false,
        };
        let combined = Combined::new(&inputs);
        CombineLatest8Stream { inputs, combined }
    }

    /// Notes that the driver runs, and hands out the waker to wake.
    pub fn mark_driver_started(&mut self) -> (wake: Option<W>)
        requires
            old(self)@.wf(),
        ensures
            final(self)@.wf(),
            wake == old(self)@.output.waker,
            final(self)@ == (CombineState {
                output: HotState { driver_started: true, waker: None, ..old(self)@.output },
                ..old(self)@
            }),
    {
        self.combined.mark_driver_started(&self.inputs)
    }

    /// Reports what the first input gave next: an item, or its end.
    pub fn input1_next(&mut self, item: Option<T1>) -> (turn: DriverTurn<W>)
        requires
            old(self)@.wf(),
            !old(self)@.output.done,
            !old(self)@.inputs.done1,
        ensures
            final(self)@.wf(),
            match item {
                Some(item) => old(self)@.published(
                    (Inputs8 { latest1: Some(item), ..old(self)@.inputs }),
                    final(self)@,
                    turn,
                ),
                None => old(self)@.settled(
                    (Inputs8 { done1: true, ..old(self)@.inputs }),
                    final(self)@,
                    turn,
                ),
            },
    {
        match item {
            Some(item) => {
                self.inputs.latest1 = Some(item);
                self.combined.publish(&self.inputs)
            },
            None => {
                self.inputs.done1 = true;
                self.combined.settle(&self.inputs)
            },
        }
    }

    /// Reports what the second input gave next: an item, or its end.
    pub fn input2_next(&mut self, item: Option<T2>) -> (turn: DriverTurn<W>)
        requires
            old(self)@.wf(),
            !old(self)@.output.done,
            !old(self)@.inputs.done2,
        ensures
            final(self)@.wf(),
            match item {
                Some(item) => old(self)@.published(
                    (Inputs8 { latest2: Some(item), ..old(self)@.inputs }),
                    final(self)@,
                    turn,
                ),
                None => old(self)@.settled(
                    (Inputs8 { done2: true, ..old(self)@.inputs }),
                    final(self)@,
                    turn,
                ),
            },
    {
        match item {
            Some(item) => {
                self.inputs.latest2 = Some(item);
                self.combined.publish(&self.inputs)
            },
            None => {
                self.inputs.done2 = true;
                self.combined.settle(&self.inputs)
            },
        }
    }

    /// Reports what the third input gave next: an item, or its end.
    pub fn input3_next(&mut self, item: Option<T3>) -> (turn: DriverTurn<W>)
        requires
            old(self)@.wf(),
            !old(self)@.output.done,
            !old(self)@.inputs.done3,
        ensures
            final(self)@.wf(),
            match item {
                Some(item) => old(self)@.published(
                    (Inputs8 { latest3: Some(item), ..old(self)@.inputs }),
                    final(self)@,
                    turn,
                ),
                None => old(self)@.settled(
                    (Inputs8 { done3: true, ..old(self)@.inputs }),
                    final(self)@,
                    turn,
                ),
            },
    {
        match item {
            Some(item) => {
                self.inputs.latest3 = Some(item);
                self.combined.publish(&self.inputs)
            },
            None => {
                self.inputs.done3 = true;
                self.combined.settle(&self.inputs)
            },
        }
    }

    /// Reports what the fourth input gave next: an item, or its end.
    pub fn input4_next(&mut self, item: Option<T4>) -> (turn: DriverTurn<W>)
        requires
            old(self)@.wf(),
            !old(self)@.output.done,
            !old(self)@.inputs.done4,
        ensures
            final(self)@.wf(),
            match item {
                Some(item) => old(self)@.published(
                    (Inputs8 { latest4: Some(item), ..old(self)@.inputs }),
                    final(self)@,
                    turn,
                ),
                None => old(self)@.settled(
                    (Inputs8 { done4: true, ..old(self)@.inputs }),
                    final(self)@,
                    turn,
                ),
            },
    {
        match item {
            Some(item) => {
                self.inputs.latest4 = Some(item);
                self.combined.publish(&self.inputs)
            },
            None => {
                self.inputs.done4 = true;
                self.combined.settle(&self.inputs)
            },
        }
    }

    /// Reports what the fifth input gave next: an item, or its end.
    pub fn input5_next(&mut self, item: Option<T5>) -> (turn: DriverTurn<W>)
        requires
            old(self)@.wf(),
            !old(self)@.output.done,
            !old(self)@.inputs.done5,
        ensures
            final(self)@.wf(),
            match item {
                Some(item) => old(self)@.published(
                    (Inputs8 { latest5: Some(item), ..old(self)@.inputs }),
                    final(self)@,
                    turn,
                ),
                None => old(self)@.settled(
                    (Inputs8 { done5: true, ..old(self)@.inputs }),
                    final(self)@,
                    turn,
                ),
            },
    {
        match item {
            Some(item) => {
                self.inputs.latest5 = Some(item);
                self.combined.publish(&self.inputs)
            },
            None => {
                self.inputs.done5 = true;
                self.combined.settle(&self.inputs)
            },
        }
    }

    /// Reports what the sixth input gave next: an item, or its end.
    pub fn input6_next(&mut self, item: Option<T6>) -> (turn: DriverTurn<W>)
        requires
            old(self)@.wf(),
            !old(self)@.output.done,
            !old(self)@.inputs.done6,
        ensures
            final(self)@.wf(),
            match item {
                Some(item) => old(self)@.published(
                    (Inputs8 { latest6: Some(item), ..old(self)@.inputs }),
                    final(self)@,
                    turn,
                ),
                None => old(self)@.settled(
                    (Inputs8 { done6: true, ..old(self)@.inputs }),
                    final(self)@,
                    turn,
                ),
            },
    {
        match item {
            Some(item) => {
                self.inputs.latest6 = Some(item);
                self.combined.publish(&self.inputs)
            },
            None => {
                self.inputs.done6 = true;
                self.combined.settle(&self.inputs)
            },
        }
    }

    /// Reports what the seventh input gave next: an item, or its end.
    pub fn input7_next(&mut self, item: Option<T7>) -> (turn: DriverTurn<W>)
        requires
            old(self)@.wf(),
            !old(self)@.output.done,
            !old(self)@.inputs.done7,
        ensures
            final(self)@.wf(),
            match item {
                Some(item) => old(self)@.published(
                    (Inputs8 { latest7: Some(item), ..old(self)@.inputs }),
                    final(self)@,
                    turn,
                ),
                None => old(self)@.settled(
                    (Inputs8 { done7: true, ..old(self)@.inputs }),
                    final(self)@,
                    turn,
                ),
            },
    {
        match item {
            Some(item) => {
                self.inputs.latest7 = Some(item);
                self.combined.publish(&self.inputs)
            },
            None => {
                self.inputs.done7 = true;
                self.combined.settle(&self.inputs)
            },
        }
    }

    /// Reports what the eighth input gave next: an item, or its end.
    pub fn input8_next(&mut self, item: Option<T8>) -> (turn: DriverTurn<W>)
        requires
            old(self)@.wf(),
            !old(self)@.output.done,
            !old(self)@.inputs.done8,
        ensures
            final(self)@.wf(),
            match item {
                Some(item) => old(self)@.published(
                    (Inputs8 { latest8: Some(item), ..old(self)@.inputs }),
                    final(self)@,
                    turn,
                ),
                None => old(self)@.settled(
                    (Inputs8 { done8: true, ..old(self)@.inputs }),
                    final(self)@,
                    turn,
                ),
            },
    {
        match item {
            Some(item) => {
                self.inputs.latest8 = Some(item);
                self.combined.publish(&self.inputs)
            },
            None => {
                self.inputs.done8 = true;
                self.combined.settle(&self.inputs)
            },
        }
    }

    /// The driver is gone, for whatever reason: completes the stream.
    pub fn close(&mut self) -> (wake: Option<W>)
        requires
            old(self)@.wf(),
        ensures
            final(self)@.wf(),
            wake == old(self)@.output.waker,
            final(self)@ == (CombineState { output: old(self)@.output.closed(), ..old(self)@ }),
    {
        self.combined.close(&self.inputs)
    }

    /// The consumer's poll, with the waker of the polling task.
    pub fn poll_next(&mut self, waker: W) -> (outcome: StreamPoll<(T1, T2, T3, T4, T5, T6, T7, T8)>)
        requires
            old(self)@.wf(),
        ensures
            final(self)@.wf(),
            final(self)@ == (CombineState {
                output: old(self)@.output.polled(waker),
                ..old(self)@
            }),
            outcome == old(self)@.output.poll(),
    {
        self.combined.poll_next(&self.inputs, waker)
    }
}

/// Every call on a combination of 2 inputs is one of its run.
pub proof fn law_combine_latest2_calls_are_run_calls<T1: Clone, T2: Clone, W>()
    ensures
        Inputs2::<T1, T2>::arity() == 2,
        forall|stream: CombineLatest2Stream<T1, T2, W>| #[trigger]
            call_ensures(CombineLatest2Stream::<T1, T2, W>::new, (), stream) ==> is_combined_run(
                seq![stream@],
                Seq::<CombinedCall<Inputs2<T1, T2>, W>>::empty(),
            ),
        forall|s: &mut CombineLatest2Stream<T1, T2, W>, wake: Option<W>| #[trigger]
            call_ensures(CombineLatest2Stream::<T1, T2, W>::mark_driver_started, (s,), wake) ==> combined_leads(
                s@,
                CombinedCall::Started { wake },
                final(s)@,
            ),
        forall|s: &mut CombineLatest2Stream<T1, T2, W>, item: Option<T1>, turn: DriverTurn<W>| #[trigger]
            call_ensures(CombineLatest2Stream::<T1, T2, W>::input1_next, (s, item), turn)
                && !s@.output.done && !s@.inputs.done1 ==> combined_leads(
                s@,
                match item {
                    Some(item) => CombinedCall::Input { item: Item2::Input1(item), turn },
                    None => CombinedCall::Ended { index: 0, turn },
                },
                final(s)@,
            ),
        forall|s: &mut CombineLatest2Stream<T1, T2, W>, item: Option<T2>, turn: DriverTurn<W>| #[trigger]
            call_ensures(CombineLatest2Stream::<T1, T2, W>::input2_next, (s, item), turn)
                && !s@.output.done && !s@.inputs.done2 ==> combined_leads(
                s@,
                match item {
                    Some(item) => CombinedCall::Input { item: Item2::Input2(item), turn },
                    None => CombinedCall::Ended { index: 1, turn },
                },
                final(s)@,
            ),
        forall|s: &mut CombineLatest2Stream<T1, T2, W>, wake: Option<W>| #[trigger]
            call_ensures(CombineLatest2Stream::<T1, T2, W>::close, (s,), wake) ==> combined_leads(
                s@,
                CombinedCall::Closed { wake },
                final(s)@,
            ),
        forall|s: &mut CombineLatest2Stream<T1, T2, W>, waker: W, outcome: StreamPoll<(T1, T2)>| #[trigger]
            call_ensures(CombineLatest2Stream::<T1, T2, W>::poll_next, (s, waker), outcome) ==> combined_leads(
                s@,
                CombinedCall::Poll { waker, outcome },
                final(s)@,
            ),
{
}

/// Every call on a combination of 3 inputs is one of its run.
pub proof fn law_combine_latest3_calls_are_run_calls<T1: Clone, T2: Clone, T3: Clone, W>()
    ensures
        Inputs3::<T1, T2, T3>::arity() == 3,
        forall|stream: CombineLatest3Stream<T1, T2, T3, W>| #[trigger]
            call_ensures(CombineLatest3Stream::<T1, T2, T3, W>::new, (), stream) ==> is_combined_run(
                seq![stream@],
                Seq::<CombinedCall<Inputs3<T1, T2, T3>, W>>::empty(),
            ),
        forall|s: &mut CombineLatest3Stream<T1, T2, T3, W>, wake: Option<W>| #[trigger]
            call_ensures(CombineLatest3Stream::<T1, T2, T3, W>::mark_driver_started, (s,), wake) ==> combined_leads(
                s@,
                CombinedCall::Started { wake },
                final(s)@,
            ),
        forall|s: &mut CombineLatest3Stream<T1, T2, T3, W>, item: Option<T1>, turn: DriverTurn<W>| #[trigger]
            call_ensures(CombineLatest3Stream::<T1, T2, T3, W>::input1_next, (s, item), turn)
                && !s@.output.done && !s@.inputs.done1 ==> combined_leads(
                s@,
                match item {
                    Some(item) => CombinedCall::Input { item: Item3::Input1(item), turn },
                    None => CombinedCall::Ended { index: 0, turn },
                },
                final(s)@,
            ),
        forall|s: &mut CombineLatest3Stream<T1, T2, T3, W>, item: Option<T2>, turn: DriverTurn<W>| #[trigger]
            call_ensures(CombineLatest3Stream::<T1, T2, T3, W>::input2_next, (s, item), turn)
                && !s@.output.done && !s@.inputs.done2 ==> combined_leads(
                s@,
                match item {
                    Some(item) => CombinedCall::Input { item: Item3::Input2(item), turn },
                    None => CombinedCall::Ended { index: 1, turn },
                },
                final(s)@,
            ),
        forall|s: &mut CombineLatest3Stream<T1, T2, T3, W>, item: Option<T3>, turn: DriverTurn<W>| #[trigger]
            call_ensures(CombineLatest3Stream::<T1, T2, T3, W>::input3_next, (s, item), turn)
                && !s@.output.done && !s@.inputs.done3 ==> combined_leads(
                s@,
                match item {
                    Some(item) => CombinedCall::Input { item: Item3::Input3(item), turn },
                    None => CombinedCall::Ended { index: 2, turn },
                },
                final(s)@,
            ),
        forall|s: &mut CombineLatest3Stream<T1, T2, T3, W>, wake: Option<W>| #[trigger]
            call_ensures(CombineLatest3Stream::<T1, T2, T3, W>::close, (s,), wake) ==> combined_leads(
                s@,
                CombinedCall::Closed { wake },
                final(s)@,
            ),
        forall|s: &mut CombineLatest3Stream<T1, T2, T3, W>, waker: W, outcome: StreamPoll<(T1, T2, T3)>| #[trigger]
            call_ensures(CombineLatest3Stream::<T1, T2, T3, W>::poll_next, (s, waker), outcome) ==> combined_leads(
                s@,
                CombinedCall::Poll { waker, outcome },
                final(s)@,
            ),
{
}

/// Every call on a combination of 4 inputs is one of its run.
pub proof fn law_combine_latest4_calls_are_run_calls<T1: Clone, T2: Clone, T3: Clone, T4: Clone, W>()
    ensures
        Inputs4::<T1, T2, T3, T4>::arity() == 4,
        forall|stream: CombineLatest4Stream<T1, T2, T3, T4, W>| #[trigger]
            call_ensures(CombineLatest4Stream::<T1, T2, T3, T4, W>::new, (), stream) ==> is_combined_run(
                seq![stream@],
                Seq::<CombinedCall<Inputs4<T1, T2, T3, T4>, W>>::empty(),
            ),
        forall|s: &mut CombineLatest4Stream<T1, T2, T3, T4, W>, wake: Option<W>| #[trigger]
            call_ensures(CombineLatest4Stream::<T1, T2, T3, T4, W>::mark_driver_started, (s,), wake) ==> combined_leads(
                s@,
                CombinedCall::Started { wake },
                final(s)@,
            ),
        forall|s: &mut CombineLatest4Stream<T1, T2, T3, T4, W>, item: Option<T1>, turn: DriverTurn<W>| #[trigger]
            call_ensures(CombineLatest4Stream::<T1, T2, T3, T4, W>::input1_next, (s, item), turn)
                && !s@.output.done && !s@.inputs.done1 ==> combined_leads(
                s@,
                match item {
                    Some(item) => CombinedCall::Input { item: Item4::Input1(item), turn },
                    None => CombinedCall::Ended { index: 0, turn },
                },
                final(s)@,
            ),
        forall|s: &mut CombineLatest4Stream<T1, T2, T3, T4, W>, item: Option<T2>, turn: DriverTurn<W>| #[trigger]
            call_ensures(CombineLatest4Stream::<T1, T2, T3, T4, W>::input2_next, (s, item), turn)
                && !s@.output.done && !s@.inputs.done2 ==> combined_leads(
                s@,
                match item {
                    Some(item) => CombinedCall::Input { item: Item4::Input2(item), turn },
                    None => CombinedCall::Ended { index: 1, turn },
                },
                final(s)@,
            ),
        forall|s: &mut CombineLatest4Stream<T1, T2, T3, T4, W>, item: Option<T3>, turn: DriverTurn<W>| #[trigger]
            call_ensures(CombineLatest4Stream::<T1, T2, T3, T4, W>::input3_next, (s, item), turn)
                && !s@.output.done && !s@.inputs.done3 ==> combined_leads(
                s@,
                match item {
                    Some(item) => CombinedCall::Input { item: Item4::Input3(item), turn },
                    None => CombinedCall::Ended { index: 2, turn },
                },
                final(s)@,
            ),
        forall|s: &mut CombineLatest4Stream<T1, T2, T3, T4, W>, item: Option<T4>, turn: DriverTurn<W>| #[trigger]
            call_ensures(CombineLatest4Stream::<T1, T2, T3, T4, W>::input4_next, (s, item), turn)
                && !s@.output.done && !s@.inputs.done4 ==> combined_leads(
                s@,
                match item {
                    Some(item) => CombinedCall::Input { item: Item4::Input4(item), turn },
                    None => CombinedCall::Ended { index: 3, turn },
                },
                final(s)@,
            ),
        forall|s: &mut CombineLatest4Stream<T1, T2, T3, T4, W>, wake: Option<W>| #[trigger]
            call_ensures(CombineLatest4Stream::<T1, T2, T3, T4, W>::close, (s,), wake) ==> combined_leads(
                s@,
                CombinedCall::Closed { wake },
                final(s)@,
            ),
        forall|s: &mut CombineLatest4Stream<T1, T2, T3, T4, W>, waker: W, outcome: StreamPoll<(T1, T2, T3, T4)>| #[trigger]
            call_ensures(CombineLatest4Stream::<T1, T2, T3, T4, W>::poll_next, (s, waker), outcome) ==> combined_leads(
                s@,
                CombinedCall::Poll { waker, outcome },
                final(s)@,
            ),
{
}

/// Every call on a combination of 5 inputs is one of its run.
pub proof fn law_combine_latest5_calls_are_run_calls<T1: Clone, T2: Clone, T3: Clone, T4: Clone, T5: Clone, W>()
    ensures
        Inputs5::<T1, T2, T3, T4, T5>::arity() == 5,
        forall|stream: CombineLatest5Stream<T1, T2, T3, T4, T5, W>| #[trigger]
            call_ensures(CombineLatest5Stream::<T1, T2, T3, T4, T5, W>::new, (), stream) ==> is_combined_run(
                seq![stream@],
                Seq::<CombinedCall<Inputs5<T1, T2, T3, T4, T5>, W>>::empty(),
            ),
        forall|s: &mut CombineLatest5Stream<T1, T2, T3, T4, T5, W>, wake: Option<W>| #[trigger]
            call_ensures(CombineLatest5Stream::<T1, T2, T3, T4, T5, W>::mark_driver_started, (s,), wake) ==> combined_leads(
                s@,
                CombinedCall::Started { wake },
                final(s)@,
            ),
        forall|s: &mut CombineLatest5Stream<T1, T2, T3, T4, T5, W>, item: Option<T1>, turn: DriverTurn<W>| #[trigger]
            call_ensures(CombineLatest5Stream::<T1, T2, T3, T4, T5, W>::input1_next, (s, item), turn)
                && !s@.output.done && !s@.inputs.done1 ==> combined_leads(
                s@,
                match item {
                    Some(item) => CombinedCall::Input { item: Item5::Input1(item), turn },
                    None => CombinedCall::Ended { index: 0, turn },
                },
                final(s)@,
            ),
        forall|s: &mut CombineLatest5Stream<T1, T2, T3, T4, T5, W>, item: Option<T2>, turn: DriverTurn<W>| #[trigger]
            call_ensures(CombineLatest5Stream::<T1, T2, T3, T4, T5, W>::input2_next, (s, item), turn)
                && !s@.output.done && !s@.inputs.done2 ==> combined_leads(
                s@,
                match item {
                    Some(item) => CombinedCall::Input { item: Item5::Input2(item), turn },
                    None => CombinedCall::Ended { index: 1, turn },
                },
                final(s)@,
            ),
        forall|s: &mut CombineLatest5Stream<T1, T2, T3, T4, T5, W>, item: Option<T3>, turn: DriverTurn<W>| #[trigger]
            call_ensures(CombineLatest5Stream::<T1, T2, T3, T4, T5, W>::input3_next, (s, item), turn)
                && !s@.output.done && !s@.inputs.done3 ==> combined_leads(
                s@,
                match item {
                    Some(item) => CombinedCall::Input { item: Item5::Input3(item), turn },
                    None => CombinedCall::Ended { index: 2, turn },
                },
                final(s)@,
            ),
        forall|s: &mut CombineLatest5Stream<T1, T2, T3, T4, T5, W>, item: Option<T4>, turn: DriverTurn<W>| #[trigger]
            call_ensures(CombineLatest5Stream::<T1, T2, T3, T4, T5, W>::input4_next, (s, item), turn)
                && !s@.output.done && !s@.inputs.done4 ==> combined_leads(
                s@,
                match item {
                    Some(item) => CombinedCall::Input { item: Item5::Input4(item), turn },
                    None => CombinedCall::Ended { index: 3, turn },
                },
                final(s)@,
            ),
        forall|s: &mut CombineLatest5Stream<T1, T2, T3, T4, T5, W>, item: Option<T5>, turn: DriverTurn<W>| #[trigger]
            call_ensures(CombineLatest5Stream::<T1, T2, T3, T4, T5, W>::input5_next, (s, item), turn)
                && !s@.output.done && !s@.inputs.done5 ==> combined_leads(
                s@,
                match item {
                    Some(item) => CombinedCall::Input { item: Item5::Input5(item), turn },
                    None => CombinedCall::Ended { index: 4, turn },
                },
                final(s)@,
            ),
        forall|s: &mut CombineLatest5Stream<T1, T2, T3, T4, T5, W>, wake: Option<W>| #[trigger]
            call_ensures(CombineLatest5Stream::<T1, T2, T3, T4, T5, W>::close, (s,), wake) ==> combined_leads(
                s@,
                CombinedCall::Closed { wake },
                final(s)@,
            ),
        forall|s: &mut CombineLatest5Stream<T1, T2, T3, T4, T5, W>, waker: W, outcome: StreamPoll<(T1, T2, T3, T4, T5)>| #[trigger]
            call_ensures(CombineLatest5Stream::<T1, T2, T3, T4, T5, W>::poll_next, (s, waker), outcome) ==> combined_leads(
                s@,
                CombinedCall::Poll { waker, outcome },
                final(s)@,
            ),
{
}

/// Every call on a combination of 6 inputs is one of its run.
pub proof fn law_combine_latest6_calls_are_run_calls<T1: Clone, T2: Clone, T3: Clone, T4: Clone, T5: Clone, T6: Clone, W>()
    ensures
        Inputs6::<T1, T2, T3, T4, T5, T6>::arity() == 6,
        forall|stream: CombineLatest6Stream<T1, T2, T3, T4, T5, T6, W>| #[trigger]
            call_ensures(CombineLatest6Stream::<T1, T2, T3, T4, T5, T6, W>::new, (), stream) ==> is_combined_run(
                seq![stream@],
                Seq::<CombinedCall<Inputs6<T1, T2, T3, T4, T5, T6>, W>>::empty(),
            ),
        forall|s: &mut CombineLatest6Stream<T1, T2, T3, T4, T5, T6, W>, wake: Option<W>| #[trigger]
            call_ensures(CombineLatest6Stream::<T1, T2, T3, T4, T5, T6, W>::mark_driver_started, (s,), wake) ==> combined_leads(
                s@,
                CombinedCall::Started { wake },
                final(s)@,
            ),
        forall|s: &mut CombineLatest6Stream<T1, T2, T3, T4, T5, T6, W>, item: Option<T1>, turn: DriverTurn<W>| #[trigger]
            call_ensures(CombineLatest6Stream::<T1, T2, T3, T4, T5, T6, W>::input1_next, (s, item), turn)
                && !s@.output.done && !s@.inputs.done1 ==> combined_leads(
                s@,
                match item {
                    Some(item) => CombinedCall::Input { item: Item6::Input1(item), turn },
                    None => CombinedCall::Ended { index: 0, turn },
                },
                final(s)@,
            ),
        forall|s: &mut CombineLatest6Stream<T1, T2, T3, T4, T5, T6, W>, item: Option<T2>, turn: DriverTurn<W>| #[trigger]
            call_ensures(CombineLatest6Stream::<T1, T2, T3, T4, T5, T6, W>::input2_next, (s, item), turn)
                && !s@.output.done && !s@.inputs.done2 ==> combined_leads(
                s@,
                match item {
                    Some(item) => CombinedCall::Input { item: Item6::Input2(item), turn },
                    None => CombinedCall::Ended { index: 1, turn },
                },
                final(s)@,
            ),
        forall|s: &mut CombineLatest6Stream<T1, T2, T3, T4, T5, T6, W>, item: Option<T3>, turn: DriverTurn<W>| #[trigger]
            call_ensures(CombineLatest6Stream::<T1, T2, T3, T4, T5, T6, W>::input3_next, (s, item), turn)
                && !s@.output.done && !s@.inputs.done3 ==> combined_leads(
                s@,
                match item {
                    Some(item) => CombinedCall::Input { item: Item6::Input3(item), turn },
                    None => CombinedCall::Ended { index: 2, turn },
                },
                final(s)@,
            ),
        forall|s: &mut CombineLatest6Stream<T1, T2, T3, T4, T5, T6, W>, item: Option<T4>, turn: DriverTurn<W>| #[trigger]
            call_ensures(CombineLatest6Stream::<T1, T2, T3, T4, T5, T6, W>::input4_next, (s, item), turn)
                && !s@.output.done && !s@.inputs.done4 ==> combined_leads(
                s@,
                match item {
                    Some(item) => CombinedCall::Input { item: Item6::Input4(item), turn },
                    None => CombinedCall::Ended { index: 3, turn },
                },
                final(s)@,
            ),
        forall|s: &mut CombineLatest6Stream<T1, T2, T3, T4, T5, T6, W>, item: Option<T5>, turn: DriverTurn<W>| #[trigger]
            call_ensures(CombineLatest6Stream::<T1, T2, T3, T4, T5, T6, W>::input5_next, (s, item), turn)
                && !s@.output.done && !s@.inputs.done5 ==> combined_leads(
                s@,
                match item {
                    Some(item) => CombinedCall::Input { item: Item6::Input5(item), turn },
                    None => CombinedCall::Ended { index: 4, turn },
                },
                final(s)@,
            ),
        forall|s: &mut CombineLatest6Stream<T1, T2, T3, T4, T5, T6, W>, item: Option<T6>, turn: DriverTurn<W>| #[trigger]
            call_ensures(CombineLatest6Stream::<T1, T2, T3, T4, T5, T6, W>::input6_next, (s, item), turn)
                && !s@.output.done && !s@.inputs.done6 ==> combined_leads(
                s@,
                match item {
                    Some(item) => CombinedCall::Input { item: Item6::Input6(item), turn },
                    None => CombinedCall::Ended { index: 5, turn },
                },
                final(s)@,
            ),
        forall|s: &mut CombineLatest6Stream<T1, T2, T3, T4, T5, T6, W>, wake: Option<W>| #[trigger]
            call_ensures(CombineLatest6Stream::<T1, T2, T3, T4, T5, T6, W>::close, (s,), wake) ==> combined_leads(
                s@,
                CombinedCall::Closed { wake },
                final(s)@,
            ),
        forall|s: &mut CombineLatest6Stream<T1, T2, T3, T4, T5, T6, W>, waker: W, outcome: StreamPoll<(T1, T2, T3, T4, T5, T6)>| #[trigger]
            call_ensures(CombineLatest6Stream::<T1, T2, T3, T4, T5, T6, W>::poll_next, (s, waker), outcome) ==> combined_leads(
                s@,
                CombinedCall::Poll { waker, outcome },
                final(s)@,
            ),
{
}

/// Every call on a combination of 7 inputs is one of its run.
pub proof fn law_combine_latest7_calls_are_run_calls<T1: Clone, T2: Clone, T3: Clone, T4: Clone, T5: Clone, T6: Clone, T7: Clone, W>()
    ensures
        Inputs7::<T1, T2, T3, T4, T5, T6, T7>::arity() == 7,
        forall|stream: CombineLatest7Stream<T1, T2, T3, T4, T5, T6, T7, W>| #[trigger]
            call_ensures(CombineLatest7Stream::<T1, T2, T3, T4, T5, T6, T7, W>::new, (), stream) ==> is_combined_run(
                seq![stream@],
                Seq::<CombinedCall<Inputs7<T1, T2, T3, T4, T5, T6, T7>, W>>::empty(),
            ),
        forall|s: &mut CombineLatest7Stream<T1, T2, T3, T4, T5, T6, T7, W>, wake: Option<W>| #[trigger]
            call_ensures(CombineLatest7Stream::<T1, T2, T3, T4, T5, T6, T7, W>::mark_driver_started, (s,), wake) ==> combined_leads(
                s@,
                CombinedCall::Started { wake },
                final(s)@,
            ),
        forall|s: &mut CombineLatest7Stream<T1, T2, T3, T4, T5, T6, T7, W>, item: Option<T1>, turn: DriverTurn<W>| #[trigger]
            call_ensures(CombineLatest7Stream::<T1, T2, T3, T4, T5, T6, T7, W>::input1_next, (s, item), turn)
                && !s@.output.done && !s@.inputs.done1 ==> combined_leads(
                s@,
                match item {
                    Some(item) => CombinedCall::Input { item: Item7::Input1(item), turn },
                    None => CombinedCall::Ended { index: 0, turn },
                },
                final(s)@,
            ),
        forall|s: &mut CombineLatest7Stream<T1, T2, T3, T4, T5, T6, T7, W>, item: Option<T2>, turn: DriverTurn<W>| #[trigger]
            call_ensures(CombineLatest7Stream::<T1, T2, T3, T4, T5, T6, T7, W>::input2_next, (s, item), turn)
                && !s@.output.done && !s@.inputs.done2 ==> combined_leads(
                s@,
                match item {
                    Some(item) => CombinedCall::Input { item: Item7::Input2(item), turn },
                    None => CombinedCall::Ended { index: 1, turn },
                },
                final(s)@,
            ),
        forall|s: &mut CombineLatest7Stream<T1, T2, T3, T4, T5, T6, T7, W>, item: Option<T3>, turn: DriverTurn<W>| #[trigger]
            call_ensures(CombineLatest7Stream::<T1, T2, T3, T4, T5, T6, T7, W>::input3_next, (s, item), turn)
                && !s@.output.done && !s@.inputs.done3 ==> combined_leads(
                s@,
                match item {
                    Some(item) => CombinedCall::Input { item: Item7::Input3(item), turn },
                    None => CombinedCall::Ended { index: 2, turn },
                },
                final(s)@,
            ),
        forall|s: &mut CombineLatest7Stream<T1, T2, T3, T4, T5, T6, T7, W>, item: Option<T4>, turn: DriverTurn<W>| #[trigger]
            call_ensures(CombineLatest7Stream::<T1, T2, T3, T4, T5, T6, T7, W>::input4_next, (s, item), turn)
                && !s@.output.done && !s@.inputs.done4 ==> combined_leads(
                s@,
                match item {
                    Some(item) => CombinedCall::Input { item: Item7::Input4(item), turn },
                    None => CombinedCall::Ended { index: 3, turn },
                },
                final(s)@,
            ),
        forall|s: &mut CombineLatest7Stream<T1, T2, T3, T4, T5, T6, T7, W>, item: Option<T5>, turn: DriverTurn<W>| #[trigger]
            call_ensures(CombineLatest7Stream::<T1, T2, T3, T4, T5, T6, T7, W>::input5_next, (s, item), turn)
                && !s@.output.done && !s@.inputs.done5 ==> combined_leads(
                s@,
                match item {
                    Some(item) => CombinedCall::Input { item: Item7::Input5(item), turn },
                    None => CombinedCall::Ended { index: 4, turn },
                },
                final(s)@,
            ),
        forall|s: &mut CombineLatest7Stream<T1, T2, T3, T4, T5, T6, T7, W>, item: Option<T6>, turn: DriverTurn<W>| #[trigger]
            call_ensures(CombineLatest7Stream::<T1, T2, T3, T4, T5, T6, T7, W>::input6_next, (s, item), turn)
                && !s@.output.done && !s@.inputs.done6 ==> combined_leads(
                s@,
                match item {
                    Some(item) => CombinedCall::Input { item: Item7::Input6(item), turn },
                    None => CombinedCall::Ended { index: 5, turn },
                },
                final(s)@,
            ),
        forall|s: &mut CombineLatest7Stream<T1, T2, T3, T4, T5, T6, T7, W>, item: Option<T7>, turn: DriverTurn<W>| #[trigger]
            call_ensures(CombineLatest7Stream::<T1, T2, T3, T4, T5, T6, T7, W>::input7_next, (s, item), turn)
                && !s@.output.done && !s@.inputs.done7 ==> combined_leads(
                s@,
                match item {
                    Some(item) => CombinedCall::Input { item: Item7::Input7(item), turn },
                    None => CombinedCall::Ended { index: 6, turn },
                },
                final(s)@,
            ),
        forall|s: &mut CombineLatest7Stream<T1, T2, T3, T4, T5, T6, T7, W>, wake: Option<W>| #[trigger]
            call_ensures(CombineLatest7Stream::<T1, T2, T3, T4, T5, T6, T7, W>::close, (s,), wake) ==> combined_leads(
                s@,
                CombinedCall::Closed { wake },
                final(s)@,
            ),
        forall|s: &mut CombineLatest7Stream<T1, T2, T3, T4, T5, T6, T7, W>, waker: W, outcome: StreamPoll<(T1, T2, T3, T4, T5, T6, T7)>| #[trigger]
            call_ensures(CombineLatest7Stream::<T1, T2, T3, T4, T5, T6, T7, W>::poll_next, (s, waker), outcome) ==> combined_leads(
                s@,
                CombinedCall::Poll { waker, outcome },
                final(s)@,
            ),
{
}

/// Every call on a combination of 8 inputs is one of its run.
pub proof fn law_combine_latest8_calls_are_run_calls<T1: Clone, T2: Clone, T3: Clone, T4: Clone, T5: Clone, T6: Clone, T7: Clone, T8: Clone, W>()
    ensures
        Inputs8::<T1, T2, T3, T4, T5, T6, T7, T8>::arity() == 8,
        forall|stream: CombineLatest8Stream<T1, T2, T3, T4, T5, T6, T7, T8, W>| #[trigger]
            call_ensures(CombineLatest8Stream::<T1, T2, T3, T4, T5, T6, T7, T8, W>::new, (), stream) ==> is_combined_run(
                seq![stream@],
                Seq::<CombinedCall<Inputs8<T1, T2, T3, T4, T5, T6, T7, T8>, W>>::empty(),
            ),
        forall|s: &mut CombineLatest8Stream<T1, T2, T3, T4, T5, T6, T7, T8, W>, wake: Option<W>| #[trigger]
            call_ensures(CombineLatest8Stream::<T1, T2, T3, T4, T5, T6, T7, T8, W>::mark_driver_started, (s,), wake) ==> combined_leads(
                s@,
                CombinedCall::Started { wake },
                final(s)@,
            ),
        forall|s: &mut CombineLatest8Stream<T1, T2, T3, T4, T5, T6, T7, T8, W>, item: Option<T1>, turn: DriverTurn<W>| #[trigger]
            call_ensures(CombineLatest8Stream::<T1, T2, T3, T4, T5, T6, T7, T8, W>::input1_next, (s, item), turn)
                && !s@.output.done && !s@.inputs.done1 ==> combined_leads(
                s@,
                match item {
                    Some(item) => CombinedCall::Input { item: Item8::Input1(item), turn },
                    None => CombinedCall::Ended { index: 0, turn },
                },
                final(s)@,
            ),
        forall|s: &mut CombineLatest8Stream<T1, T2, T3, T4, T5, T6, T7, T8, W>, item: Option<T2>, turn: DriverTurn<W>| #[trigger]
            call_ensures(CombineLatest8Stream::<T1, T2, T3, T4, T5, T6, T7, T8, W>::input2_next, (s, item), turn)
                && !s@.output.done && !s@.inputs.done2 ==> combined_leads(
                s@,
                match item {
                    Some(item) => CombinedCall::Input { item: Item8::Input2(item), turn },
                    None => CombinedCall::Ended { index: 1, turn },
                },
                final(s)@,
            ),
        forall|s: &mut CombineLatest8Stream<T1, T2, T3, T4, T5, T6, T7, T8, W>, item: Option<T3>, turn: DriverTurn<W>| #[trigger]
            call_ensures(CombineLatest8Stream::<T1, T2, T3, T4, T5, T6, T7, T8, W>::input3_next, (s, item), turn)
                && !s@.output.done && !s@.inputs.done3 ==> combined_leads(
                s@,
                match item {
                    Some(item) => CombinedCall::Input { item: Item8::Input3(item), turn },
                    None => CombinedCall::Ended { index: 2, turn },
                },
                final(s)@,
            ),
        forall|s: &mut CombineLatest8Stream<T1, T2, T3, T4, T5, T6, T7, T8, W>, item: Option<T4>, turn: DriverTurn<W>| #[trigger]
            call_ensures(CombineLatest8Stream::<T1, T2, T3, T4, T5, T6, T7, T8, W>::input4_next, (s, item), turn)
                && !s@.output.done && !s@.inputs.done4 ==> combined_leads(
                s@,
                match item {
                    Some(item) => CombinedCall::Input { item: Item8::Input4(item), turn },
                    None => CombinedCall::Ended { index: 3, turn },
                },
                final(s)@,
            ),
        forall|s: &mut CombineLatest8Stream<T1, T2, T3, T4, T5, T6, T7, T8, W>, item: Option<T5>, turn: DriverTurn<W>| #[trigger]
            call_ensures(CombineLatest8Stream::<T1, T2, T3, T4, T5, T6, T7, T8, W>::input5_next, (s, item), turn)
                && !s@.output.done && !s@.inputs.done5 ==> combined_leads(
                s@,
                match item {
                    Some(item) => CombinedCall::Input { item: Item8::Input5(item), turn },
                    None => CombinedCall::Ended { index: 4, turn },
                },
                final(s)@,
            ),
        forall|s: &mut CombineLatest8Stream<T1, T2, T3, T4, T5, T6, T7, T8, W>, item: Option<T6>, turn: DriverTurn<W>| #[trigger]
            call_ensures(CombineLatest8Stream::<T1, T2, T3, T4, T5, T6, T7, T8, W>::input6_next, (s, item), turn)
                && !s@.output.done && !s@.inputs.done6 ==> combined_leads(
                s@,
                match item {
                    Some(item) => CombinedCall::Input { item: Item8::Input6(item), turn },
                    None => CombinedCall::Ended { index: 5, turn },
                },
                final(s)@,
            ),
        forall|s: &mut CombineLatest8Stream<T1, T2, T3, T4, T5, T6, T7, T8, W>, item: Option<T7>, turn: DriverTurn<W>| #[trigger]
            call_ensures(CombineLatest8Stream::<T1, T2, T3, T4, T5, T6, T7, T8, W>::input7_next, (s, item), turn)
                && !s@.output.done && !s@.inputs.done7 ==> combined_leads(
                s@,
                match item {
                    Some(item) => CombinedCall::Input { item: Item8::Input7(item), turn },
                    None => CombinedCall::Ended { index: 6, turn },
                },
                final(s)@,
            ),
        forall|s: &mut CombineLatest8Stream<T1, T2, T3, T4, T5, T6, T7, T8, W>, item: Option<T8>, turn: DriverTurn<W>| #[trigger]
            call_ensures(CombineLatest8Stream::<T1, T2, T3, T4, T5, T6, T7, T8, W>::input8_next, (s, item), turn)
                && !s@.output.done && !s@.inputs.done8 ==> combined_leads(
                s@,
                match item {
                    Some(item) => CombinedCall::Input { item: Item8::Input8(item), turn },
                    None => CombinedCall::Ended { index: 7, turn },
                },
                final(s)@,
            ),
        forall|s: &mut CombineLatest8Stream<T1, T2, T3, T4, T5, T6, T7, T8, W>, wake: Option<W>| #[trigger]
            call_ensures(CombineLatest8Stream::<T1, T2, T3, T4, T5, T6, T7, T8, W>::close, (s,), wake) ==> combined_leads(
                s@,
                CombinedCall::Closed { wake },
                final(s)@,
            ),
        forall|s: &mut CombineLatest8Stream<T1, T2, T3, T4, T5, T6, T7, T8, W>, waker: W, outcome: StreamPoll<(T1, T2, T3, T4, T5, T6, T7, T8)>| #[trigger]
            call_ensures(CombineLatest8Stream::<T1, T2, T3, T4, T5, T6, T7, T8, W>::poll_next, (s, waker), outcome) ==> combined_leads(
                s@,
                CombinedCall::Poll { waker, outcome },
                final(s)@,
            ),
{
}

} // verus!
