//! The controller: the shared predictor and one editing session per focused
//! text field, found by the handle that the host holds. The entry points
//! mirror the host's callbacks.

use crate::engine::{initial_session, step, EngineCore, Response, SessionView};
use crate::keys::{key_event, Event};
use crate::predict::{string_views, Predictor};
use vstd::prelude::*;

verus! {

#[derive(Debug)]
pub enum SessionError {
    /// No live session has this handle.
    SessionNotFound(usize),
}

pub struct Controller {
    predictor: Predictor,
    sessions: Vec<Option<EngineCore>>,
    page_size: usize,
}

impl Controller {
    /// The sessions by handle; `None` for a handle whose session was freed.
    pub closed spec fn sessions(&self) -> Seq<Option<SessionView>> {
        self.sessions@.map_values(
            |o: Option<EngineCore>| match o {
                Some(core) => Some(core@),
                None => None,
            },
        )
    }

    pub closed spec fn predictor(&self) -> Predictor {
        self.predictor
    }

    pub closed spec fn page_size(&self) -> int {
        self.page_size as int
    }

    pub closed spec fn wf(&self) -> bool {
        &&& self.page_size > 0
        &&& forall|i: int|
            0 <= i < self.sessions@.len() ==> (#[trigger] self.sessions@[i] matches Some(core)
                ==> core.wf())
    }

    /// True when `handle` names a live session.
    pub open spec fn live(&self, handle: usize) -> bool {
        handle < self.sessions().len() && self.sessions()[handle as int] is Some
    }

    /// A controller with no session, whose tables page `page_size` candidates.
    pub fn new(predictor: Predictor, page_size: usize) -> (r: Controller)
        requires
            page_size > 0,
        ensures
            r.wf(),
            r.sessions() == Seq::<Option<SessionView>>::empty(),
            r.predictor() == predictor,
            r.page_size() == page_size,
    {
        let r = Controller { predictor, sessions: Vec::new(), page_size };
        assert(r.sessions() =~= Seq::<Option<SessionView>>::empty());
        r
    }

    /// Handles `event` in the session named by `handle`.
    pub fn dispatch(&mut self, handle: usize, event: Event) -> (r: Result<Response, SessionError>)
        requires
            old(self).wf(),
        ensures
            final(self).wf(),
            final(self).predictor() == old(self).predictor(),
            final(self).page_size() == old(self).page_size(),
            r is Ok <==> old(self).live(handle),
            r matches Err(e) ==> e == SessionError::SessionNotFound(handle) && final(self).sessions()
                == old(self).sessions(),
            r matches Ok(resp) ==> {
                let (next, handled, commits) = step(
                    old(self).sessions()[handle as int]->Some_0,
                    old(self).predictor(),
                    event,
                );
                &&& final(self).sessions() == old(self).sessions().update(handle as int, Some(next))
                &&& resp.handled == handled
                &&& string_views(resp.commits@) == commits
            },
    {
        if handle >= self.sessions.len() {
            return Err(SessionError::SessionNotFound(handle));
        }
        let ghost before = self.sessions@;
        match &mut self.sessions[handle] {
            Some(core) => {
                assert(before[handle as int] matches Some(c) && c.wf());
                let resp = core.handle(&self.predictor, event);
                proof {
                    assert(self.sessions@ == before.update(handle as int, Some(*core)));
                }
                assert(self.sessions() =~= old(self).sessions().update(handle as int, Some(core@)));
                Ok(resp)
            },
            None => Err(SessionError::SessionNotFound(handle)),
        }
    }
}

} // verus!

verus! {

/// Opens a session for a text field that gained the focus; returns its handle.
pub fn new_engine_core(controller: &mut Controller) -> (handle: usize)
    requires
        old(controller).wf(),
    ensures
        final(controller).wf(),
        final(controller).predictor() == old(controller).predictor(),
        final(controller).page_size() == old(controller).page_size(),
        handle == old(controller).sessions().len(),
        final(controller).sessions() == old(controller).sessions().push(
            Some(initial_session(old(controller).page_size())),
        ),
{
    let handle = controller.sessions.len();
    let core = EngineCore::new(controller.page_size);
    controller.sessions.push(Some(core));
    assert(controller.sessions() =~= old(controller).sessions().push(
        Some(initial_session(old(controller).page_size())),
    ));
    handle
}

/// Drops the session named by `engine`, with everything it held.
pub fn free_engine_core(controller: &mut Controller, engine: usize) -> (r: Result<(), SessionError>)
    requires
        old(controller).wf(),
    ensures
        final(controller).wf(),
        final(controller).predictor() == old(controller).predictor(),
        final(controller).page_size() == old(controller).page_size(),
        r is Ok <==> old(controller).live(engine),
        r is Ok ==> final(controller).sessions() == old(controller).sessions().update(
            engine as int,
            None,
        ),
        r matches Err(e) ==> e == SessionError::SessionNotFound(engine)
            && final(controller).sessions() == old(controller).sessions(),
{
    if engine >= controller.sessions.len() || controller.sessions[engine].is_none() {
        return Err(SessionError::SessionNotFound(engine));
    }
    controller.sessions.set(engine, None);
    assert(controller.sessions() =~= old(controller).sessions().update(engine as int, None));
    Ok(())
}

/// The host's page-down button.
pub fn ibus_eei_engine_page_down_button(controller: &mut Controller, engine: usize) -> (r: Result<
    Response,
    SessionError,
>)
    requires
        old(controller).wf(),
    ensures
        dispatched(*old(controller), *final(controller), engine, Event::PageDown, r),
{
    controller.dispatch(engine, Event::PageDown)
}

/// The host's page-up button.
pub fn ibus_eei_engine_page_up_button(controller: &mut Controller, engine: usize) -> (r: Result<
    Response,
    SessionError,
>)
    requires
        old(controller).wf(),
    ensures
        dispatched(*old(controller), *final(controller), engine, Event::PageUp, r),
{
    controller.dispatch(engine, Event::PageUp)
}

/// The text field of the session lost the focus: its buffers are dropped.
pub fn ibus_eei_engine_focus_out(controller: &mut Controller, engine: usize) -> (r: Result<
    Response,
    SessionError,
>)
    requires
        old(controller).wf(),
    ensures
        dispatched(*old(controller), *final(controller), engine, Event::FocusOut, r),
{
    controller.dispatch(engine, Event::FocusOut)
}

/// A candidate was clicked; `index` counts from the first candidate of the
/// page shown.
pub fn ibus_eei_engine_candidate_clicked(
    controller: &mut Controller,
    engine: usize,
    index: u32,
    button_state: u32,
    keyboard_state: u32,
) -> (r: Result<Response, SessionError>)
    requires
        old(controller).wf(),
    ensures
        dispatched(*old(controller), *final(controller), engine, Event::Clicked(index), r),
{
    controller.dispatch(engine, Event::Clicked(index))
}

/// A key event: the key symbol, its hardware code (not used) and the modifier mask.
pub fn ibus_eei_engine_process_key_event(
    controller: &mut Controller,
    engine: usize,
    keyval: u32,
    keycode: u32,
    modifiers: u32,
) -> (r: Result<Response, SessionError>)
    requires
        old(controller).wf(),
    ensures
        dispatched(*old(controller), *final(controller), engine, key_event(keyval, modifiers), r),
{
    controller.dispatch(engine, crate::keys::classify_key(keyval, modifiers))
}

/// `after` and `r` are what handling `event` in session `handle` of `before`
/// gives: the session's step when it is live, `SessionNotFound` otherwise.
pub open spec fn dispatched(
    before: Controller,
    after: Controller,
    handle: usize,
    event: Event,
    r: Result<Response, SessionError>,
) -> bool {
    &&& after.wf()
    &&& after.predictor() == before.predictor()
    &&& after.page_size() == before.page_size()
    &&& r is Ok <==> before.live(handle)
    &&& r matches Err(e) ==> e == SessionError::SessionNotFound(handle) && after.sessions()
        == before.sessions()
    &&& r matches Ok(resp) ==> {
        let (next, handled, commits) = step(
            before.sessions()[handle as int]->Some_0,
            before.predictor(),
            event,
        );
        &&& after.sessions() == before.sessions().update(handle as int, Some(next))
        &&& resp.handled == handled
        &&& string_views(resp.commits@) == commits
    }
}

} // verus!

verus! {

impl Controller {
    /// The session named by `handle`, if it is live.
    pub fn session(&self, handle: usize) -> (r: Option<&EngineCore>)
        ensures
            r is Some <==> self.live(handle),
            r matches Some(core) ==> core@ == self.sessions()[handle as int]->Some_0,
    {
        if handle < self.sessions.len() {
            match &self.sessions[handle] {
                Some(core) => Some(core),
                None => None,
            }
        } else {
            None
        }
    }
}

} // verus!
