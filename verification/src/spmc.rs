//! Single-producer multi-consumer: one writer, which does not take the lock; readers never run cleanup.
use vstd::prelude::*;
use std::marker::PhantomData;
use crate::event_queue::{CleanupMode, Settings as BaseSettings, settings_valid};
use crate::cursor::Cursor;

verus! {

/// Configuration of an spmc queue. Cleanup on chunk read is not available.
pub trait Settings {
    const MIN_CHUNK_SIZE: u32 = 4;
    const MAX_CHUNK_SIZE: u32 = 4096;
    const CLEANUP: CleanupMode = CleanupMode::OnNewChunk;
}

pub struct DefaultSettings {}

impl Settings for DefaultSettings {}

/// `spmc::Settings` as the queue's settings.
pub struct BS<S: Settings> {
    _phantom: PhantomData<S>,
}

impl<S: Settings> BaseSettings for BS<S> {
    const MIN_CHUNK_SIZE: u32 = S::MIN_CHUNK_SIZE;
    const MAX_CHUNK_SIZE: u32 = S::MAX_CHUNK_SIZE;
    const CLEANUP: CleanupMode = S::CLEANUP;
    const LOCK_ON_NEW_CHUNK_CLEANUP: bool = true;
    const CLEANUP_IN_UNSUBSCRIBE: bool = false;
}

/// The queue's settings for `S` are `S`'s chunk sizes and cleanup mode; the queue is valid with
/// them when the chunk sizes are positive and ordered and cleanup on chunk read is off.
pub proof fn lemma_settings<S: Settings>()
    ensures
        <BS<S> as BaseSettings>::MIN_CHUNK_SIZE == S::MIN_CHUNK_SIZE,
        <BS<S> as BaseSettings>::MAX_CHUNK_SIZE == S::MAX_CHUNK_SIZE,
        <BS<S> as BaseSettings>::CLEANUP == S::CLEANUP,
        <BS<S> as BaseSettings>::LOCK_ON_NEW_CHUNK_CLEANUP == true,
        <BS<S> as BaseSettings>::CLEANUP_IN_UNSUBSCRIBE == false,
        settings_valid::<BS<S>>() <==> (0 < S::MIN_CHUNK_SIZE <= S::MAX_CHUNK_SIZE && S::CLEANUP != CleanupMode::OnChunkRead),
{
}

/// The default settings: chunks of 4 to 4096 items, cleanup when a new chunk is made.
pub proof fn lemma_default_settings()
    ensures
        DefaultSettings::MIN_CHUNK_SIZE == 4,
        DefaultSettings::MAX_CHUNK_SIZE == 4096,
        DefaultSettings::CLEANUP == CleanupMode::OnNewChunk,
        settings_valid::<BS<DefaultSettings>>(),
{
    lemma_settings::<DefaultSettings>();
}

pub type EventQueue<T, S = DefaultSettings> = crate::event_queue::EventQueue<T, BS<S>>;

/// Readers of an spmc queue never run cleanup: a read, a move to the start position and an
/// unsubscription only recount.
pub proof fn law_readers_never_clean<T, S: Settings>(q: EventQueue<T, S>, from: Cursor, to: Cursor)
    requires
        q.wf(),
    ensures
        EventQueue::read_keeps_chunks(q, from, to),
        !EventQueue::read_cleans(q, from, to),
        !EventQueue::jump_cleans(q, from, to),
        !<BS<S> as BaseSettings>::CLEANUP_IN_UNSUBSCRIBE,
{
}

pub type EventReader<T, S = DefaultSettings> = crate::event_queue::EventReader<T, BS<S>>;

pub type Iter<T, S = DefaultSettings> = crate::event_queue::Iter<T, BS<S>>;

} // verus!
