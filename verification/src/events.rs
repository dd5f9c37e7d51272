//! The closed set of host event kinds that an element can listen for.

use vstd::prelude::*;

verus! {

/// A kind of host event. The engine never interprets an event itself; the
/// kind only keys an element's listener table, and the embedding that drives
/// the engine translates each kind to the host's own event name.
#[derive(Clone, Copy, Debug, PartialEq, Eq, Structural, Hash)]
pub enum EventType {
    OnAbort,
    OnAnimationCancel,
    OnAnimationEnd,
    OnAnimationIteration,
    OnAnimationStart,
    OnAuxClick,
    OnBlur,
    OnCanPlay,
    OnCanPlaythrough,
    OnChange,
    OnClick,
    OnClose,
    OnContextMenu,
    OnCopy,
    OnCut,
    OnDblClick,
    OnDrag,
    OnDragEnd,
    OnDragEnter,
    OnDragExit,
    OnDragLeave,
    OnDragOver,
    OnDragStart,
    OnDrop,
    OnDurationChange,
    OnEmptied,
    OnEnded,
    OnError,
    OnFocus,
    OnGotPointerCapture,
    OnInput,
    OnInvalid,
    OnKeyDown,
    OnKeyPress,
    OnKeyUp,
    OnLoad,
    OnLoadedData,
    OnLoadedMetadata,
    OnLoadEnd,
    OnLoadStart,
    OnLostPointerCapture,
    OnMouseDown,
    OnMouseEnter,
    OnMouseLeave,
    OnMouseMove,
    OnMouseOut,
    OnMouseOver,
    OnMouseUp,
    OnPaste,
    OnPause,
    OnPlay,
    OnPlaying,
    OnPointerCancel,
    OnPointerDown,
    OnPointerEnter,
    OnPointerLeave,
    OnPointerMove,
    OnPointerOut,
    OnPointerOver,
    OnPointerUp,
    OnProgress,
    OnRateChange,
    OnReset,
    OnResize,
    OnScroll,
    OnSeeked,
    OnSeeking,
    OnSelect,
    OnSelectStart,
    OnShow,
    OnStalled,
    OnSubmit,
    OnSuspend,
    OnTimeUpdate,
    OnToggle,
    OnTouchCancel,
    OnTouchEnd,
    OnTouchMove,
    OnTouchStart,
    OnTransitionCancel,
    OnTransitionEnd,
    OnTransitionRun,
    OnTransitionStart,
    OnVolumeChange,
    OnWaiting,
    OnWheel,
}

} // verus!
